//! An iterator-style utility: drain the longest prefix of a stream of items
//! that satisfies a predicate, as filename parsing does per category with
//! tag membership.

use vstd::prelude::*;

verus! {

/// A stream of items consumed from the front.
pub struct Cursor<I> {
    items: Vec<I>,
    pos: usize,
}

impl<I> Cursor<I> {
    /// The items not yet consumed, in order.
    pub closed spec fn remaining(&self) -> Seq<I> {
        self.items@.skip(self.pos as int)
    }

    /// The consumed position never passes the end.
    pub closed spec fn inv(&self) -> bool {
        self.pos <= self.items@.len()
    }

    /// A cursor at the front of `items`.
    pub fn new(items: Vec<I>) -> (r: Cursor<I>)
        ensures
            r.remaining() == items@,
            r.inv(),
    {
        let r = Cursor { items, pos: 0 };
        proof {
            assert(r.remaining() =~= r.items@);
        }
        r
    }

    /// Everything left, consuming the cursor.
    pub fn collect(self) -> (r: Vec<I>)
        requires
            self.inv(),
        ensures
            r@ == self.remaining(),
    {
        let mut items = self.items;
        let r = items.split_off(self.pos);
        r
    }
}

/// The predicate accepted the item at index `k` of `items`.
spec fn accepts_at<I, P: Fn(&I) -> bool>(p: P, items: Seq<I>, k: int) -> bool {
    call_ensures(p, (&items[k],), true)
}

/// Draining a prefix of a stream of items, as long as each satisfies a
/// predicate.
pub trait NametagIterExt<I: Clone> {
    /// The items not yet consumed, in order.
    spec fn stream_left(&self) -> Seq<I>;

    /// The implementor's internal invariant.
    spec fn stream_inv(&self) -> bool;

    /// Consume items from the front for as long as they satisfy `p`, and
    /// return them (cloned). Afterwards either nothing is left or the first
    /// item left fails `p`.
    fn drain_while<P: Fn(&I) -> bool>(&mut self, p: P) -> (r: Vec<I>)
        requires
            old(self).stream_inv(),
            forall|x: &I| #[trigger] call_requires(p, (x,)),
        ensures
            final (self).stream_inv(),
            r@.len() <= old(self).stream_left().len(),
            final (self).stream_left() == old(self).stream_left().skip(r@.len() as int),
            forall|k: int|
                0 <= k < r@.len() ==> cloned::<I>(old(self).stream_left()[k], #[trigger] r@[k]),
            forall|k: int|
                0 <= k < r@.len() ==> call_ensures(p, (&old(self).stream_left()[k],), true),
            final (self).stream_left().len() > 0 ==> call_ensures(
                p,
                (&final (self).stream_left()[0],),
                false,
            ),
    ;
}

impl<I: Clone> NametagIterExt<I> for Cursor<I> {
    open spec fn stream_left(&self) -> Seq<I> {
        self.remaining()
    }

    open spec fn stream_inv(&self) -> bool {
        self.inv()
    }

    fn drain_while<P: Fn(&I) -> bool>(&mut self, p: P) -> (r: Vec<I>)
    {
        let ghost start = self.pos as int;
        let ghost items0 = self.items@;
        let mut result: Vec<I> = Vec::new();
        loop
            invariant_except_break
                forall|x: &I| #[trigger] call_requires(p, (x,)),
                self.items@ == items0,
                start <= self.pos as int <= items0.len(),
                result@.len() == self.pos as int - start,
                forall|k: int|
                    0 <= k < result@.len() ==> cloned::<I>(items0[start + k], #[trigger] result@[k]),
                forall|k: int|
                    0 <= k < result@.len() ==> #[trigger] accepts_at(p, items0, start + k),
            ensures
                self.items@ == items0,
                start <= self.pos as int <= items0.len(),
                result@.len() == self.pos as int - start,
                forall|k: int|
                    0 <= k < result@.len() ==> cloned::<I>(items0[start + k], #[trigger] result@[k]),
                forall|k: int|
                    0 <= k < result@.len() ==> #[trigger] accepts_at(p, items0, start + k),
                (self.pos as int) < items0.len() ==> call_ensures(
                    p,
                    (&items0[self.pos as int],),
                    false,
                ),
            decreases items0.len() - self.pos,
        {
            if self.pos >= self.items.len() {
                break;
            }
            let keep = p(&self.items[self.pos]);
            if !keep {
                break;
            }
            proof {
                assert(accepts_at(p, items0, self.pos as int));
            }
            result.push(self.items[self.pos].clone());
            self.pos = self.pos + 1;
        }
        proof {
            let n = result@.len() as int;
            assert(old(self).stream_left() =~= items0.skip(start));
            assert(self.stream_left() =~= old(self).stream_left().skip(n));
            assert forall|k: int| 0 <= k < n implies cloned::<I>(
                old(self).stream_left()[k],
                #[trigger] result@[k],
            ) by {
                assert(old(self).stream_left()[k] == items0[start + k]);
            }
            assert forall|k: int| 0 <= k < n implies call_ensures(
                p,
                (&old(self).stream_left()[k],),
                true,
            ) by {
                assert(accepts_at(p, items0, start + k));
                assert(old(self).stream_left()[k] == items0[start + k]);
            }
            if self.stream_left().len() > 0 {
                assert(self.stream_left()[0] == items0[self.pos as int]);
            }
        }
        result
    }
}

} // verus!
