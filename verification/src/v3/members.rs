use crate::common::list::reversed;
use crate::v3::frame::{pair_views, views, Frame, FrameView};
use vstd::prelude::*;

verus! {

broadcast use vstd::std_specs::vec::group_vec_axioms;

/// The items of `items` in order, each only where it first occurs.
pub open spec fn distinct(items: Seq<FrameView>) -> Seq<FrameView>
    decreases items.len(),
{
    if items.len() == 0 {
        Seq::empty()
    } else {
        let before = distinct(items.drop_last());
        if before.contains(items.last()) {
            before
        } else {
            before.push(items.last())
        }
    }
}

/// The first place in `entries` at which `key` is the key, if there is one.
pub open spec fn key_index(entries: Seq<(FrameView, FrameView)>, key: FrameView) -> Option<int>
    decreases entries.len(),
{
    if entries.len() == 0 {
        None
    } else {
        match key_index(entries.drop_last(), key) {
            Some(i) => Some(i),
            None => if entries.last().0 == key {
                Some(entries.len() - 1)
            } else {
                None
            },
        }
    }
}

/// `entries` with `value` under `key`: in place of the value that `key` had,
/// or as a new last entry.
pub open spec fn insert(entries: Seq<(FrameView, FrameView)>, key: FrameView, value: FrameView)
    -> Seq<(FrameView, FrameView)> {
    match key_index(entries, key) {
        Some(i) => entries.update(i, (key, value)),
        None => entries.push((key, value)),
    }
}

/// The entries that `items` come to when they are read as key, value, key,
/// value and so on, and each is inserted in turn: a key that occurs again
/// gets the later value. A last item without a partner is left out.
pub open spec fn entries(items: Seq<FrameView>) -> Seq<(FrameView, FrameView)>
    decreases items.len(),
{
    if items.len() < 2 {
        Seq::empty()
    } else if items.len() % 2 == 1 {
        entries(items.drop_last())
    } else {
        insert(
            entries(items.take(items.len() - 2)),
            items[items.len() - 2],
            items[items.len() - 1],
        )
    }
}

/// The place that `key_index` finds in the first entries is the place that
/// it finds in all of them.
pub proof fn lemma_key_index_take(entries: Seq<(FrameView, FrameView)>, key: FrameView, n: int)
    requires
        0 <= n <= entries.len(),
        key_index(entries.take(n), key) is Some,
    ensures
        key_index(entries, key) == key_index(entries.take(n), key),
    decreases entries.len() - n,
{
    if n < entries.len() {
        assert(entries.take(n + 1).drop_last() =~= entries.take(n));
        lemma_key_index_take(entries, key, n + 1);
    } else {
        assert(entries.take(n) =~= entries);
    }
}

/// `key_index` finds a place inside the entries, and the key stands there.
pub proof fn lemma_key_index(entries: Seq<(FrameView, FrameView)>, key: FrameView)
    ensures
        key_index(entries, key) matches Some(i) ==> 0 <= i < entries.len() && entries[i].0 == key,
    decreases entries.len(),
{
    if entries.len() > 0 {
        lemma_key_index(entries.drop_last(), key);
    }
}

/// Whether `frame` is among `items`.
fn holds(items: &Vec<Frame>, frame: &Frame) -> (r: bool)
    ensures
        r == views(items@).contains(frame@),
{
    let mut i: usize = 0;
    while i < items.len()
        invariant
            0 <= i <= items@.len(),
            forall|j: int| 0 <= j < i ==> views(items@)[j] != frame@,
        decreases items.len() - i,
    {
        if items[i].same(frame) {
            assert(views(items@)[i as int] == frame@);
            return true;
        }
        i += 1;
    }
    false
}

/// The first place in `entries` at which `key` is the key.
fn position_of(entries: &Vec<(Frame, Frame)>, key: &Frame) -> (r: Option<usize>)
    ensures
        match key_index(pair_views(entries@), key@) {
            Some(i) => r == Some(i as usize) && 0 <= i < entries@.len(),
            None => r is None,
        },
{
    let ghost all = pair_views(entries@);
    let mut i: usize = 0;
    assert(all.take(0) =~= Seq::empty());
    while i < entries.len()
        invariant
            0 <= i <= entries@.len(),
            all == pair_views(entries@),
            key_index(all.take(i as int), key@) is None,
        decreases entries.len() - i,
    {
        proof {
            assert(all.take(i + 1).drop_last() =~= all.take(i as int));
            assert(all.take(i + 1).last() == all[i as int]);
        }
        if entries[i].0.same(key) {
            proof {
                lemma_key_index_take(all, key@, i + 1);
            }
            return Some(i);
        }
        i += 1;
    }
    assert(all.take(i as int) =~= all);
    None
}

/// The frames of `items` in order, each only where it first occurs.
pub fn distinct_frames<'a>(items: Vec<Frame<'a>>) -> (r: Vec<Frame<'a>>)
    ensures
        views(r@) == distinct(views(items@)),
{
    let ghost all = views(items@);
    let ghost n = items@.len() as int;
    let mut rest = reversed(items);
    let mut out: Vec<Frame<'a>> = Vec::new();
    assert(all.take(0) =~= Seq::empty());
    assert(views(out@) =~= Seq::empty());
    while rest.len() > 0
        invariant
            all.len() == n,
            rest@.len() <= n,
            forall|j: int| 0 <= j < rest@.len() ==> rest@[j]@ == all[n - 1 - j],
            views(out@) == distinct(all.take(n - rest@.len())),
        decreases rest@.len(),
    {
        let ghost i = n - rest@.len();
        match rest.pop() {
            Some(frame) => {
                proof {
                    assert(frame@ == all[i]);
                    assert(all.take(i + 1).drop_last() =~= all.take(i));
                    assert(all.take(i + 1).last() == all[i]);
                }
                let ghost before = out@;
                if !holds(&out, &frame) {
                    out.push(frame);
                    assert(views(out@) =~= views(before).push(frame@));
                }
            },
            None => {},
        }
    }
    assert(all.take(n) =~= all);
    out
}

/// The entries that `items` come to when they are read as key, value, key,
/// value and so on, and each is inserted in turn. A last item without a
/// partner is left out.
pub fn entries_of<'a>(items: Vec<Frame<'a>>) -> (r: Vec<(Frame<'a>, Frame<'a>)>)
    ensures
        pair_views(r@) == entries(views(items@)),
{
    let ghost all = views(items@);
    let ghost n = items@.len() as int;
    let mut rest = reversed(items);
    let mut out: Vec<(Frame<'a>, Frame<'a>)> = Vec::new();
    assert(all.take(0) =~= Seq::empty());
    assert(pair_views(out@) =~= Seq::empty());
    while rest.len() > 1
        invariant
            all.len() == n,
            rest@.len() <= n,
            (n - rest@.len()) % 2 == 0,
            forall|j: int| 0 <= j < rest@.len() ==> rest@[j]@ == all[n - 1 - j],
            pair_views(out@) == entries(all.take(n - rest@.len())),
        decreases rest@.len(),
    {
        let ghost i = n - rest@.len();
        let key = match rest.pop() {
            Some(frame) => frame,
            None => Frame::Null { data: () },
        };
        let value = match rest.pop() {
            Some(frame) => frame,
            None => Frame::Null { data: () },
        };
        proof {
            assert(key@ == all[i]);
            assert(value@ == all[i + 1]);
            let upto = all.take(i + 2);
            assert(upto.take(upto.len() - 2) =~= all.take(i));
            assert(upto[upto.len() - 2] == all[i]);
            assert(upto[upto.len() - 1] == all[i + 1]);
            assert(upto.len() == i + 2);
            assert(entries(upto) == insert(entries(all.take(i)), all[i], all[i + 1]));
            lemma_key_index(pair_views(out@), key@);
        }
        let ghost before = out@;
        match position_of(&out, &key) {
            Some(at) => {
                out.set(at, (key, value));
                assert(pair_views(out@) =~= pair_views(before).update(at as int, (key@, value@)));
                assert(pair_views(out@) == entries(all.take(i + 2)));
            },
            None => {
                out.push((key, value));
                assert(pair_views(out@) =~= pair_views(before).push((key@, value@)));
                assert(pair_views(out@) == entries(all.take(i + 2)));
            },
        }
    }
    proof {
        if rest@.len() == 0 {
            assert(all.take(n) =~= all);
        } else {
            assert(all.take(n - 1) =~= all.drop_last());
        }
    }
    out
}

} // verus!
