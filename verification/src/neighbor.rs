use vstd::prelude::*;

verus! {

/// An ephemeral candidate record used in the search and selection
/// queues: a stored node named by its table slot, its id, and its
/// distance to the current query. Never persisted.
#[derive(Clone, Copy, Debug)]
pub struct Neighbor {
    pub distance: u64,
    pub id: usize,
    pub slot: usize,
}

/// Candidate order: ascending distance, ties broken by ascending id so
/// that traversal is deterministic.
pub open spec fn nb_lt(a: Neighbor, b: Neighbor) -> bool {
    a.distance < b.distance || (a.distance == b.distance && a.id < b.id)
}

/// Non-strict candidate order.
pub open spec fn nb_le(a: Neighbor, b: Neighbor) -> bool {
    !nb_lt(b, a)
}

/// The sequence is sorted ascending in the candidate order.
pub open spec fn sorted(s: Seq<Neighbor>) -> bool {
    forall|i: int, j: int| 0 <= i < j < s.len() ==> nb_le(s[i], s[j])
}

/// No table slot occurs twice.
pub open spec fn distinct_slots(s: Seq<Neighbor>) -> bool {
    forall|i: int, j: int| 0 <= i < j < s.len() ==> s[i].slot != s[j].slot
}

/// Some record in the sequence names this slot.
pub open spec fn has_slot(s: Seq<Neighbor>, t: usize) -> bool {
    exists|i: int| 0 <= i < s.len() && s[i].slot == t
}

/// Where a candidate lands in a sorted queue: after every record not
/// strictly greater than it, before the rest.
pub open spec fn insert_ordered(s: Seq<Neighbor>, x: Neighbor) -> Seq<Neighbor>
    decreases s.len(),
{
    if s.len() > 0 && !nb_lt(x, s[0]) {
        seq![s[0]] + insert_ordered(s.subrange(1, s.len() as int), x)
    } else {
        seq![x] + s
    }
}

/// The arrangement the sorter yields: each record of the input
/// inserted in turn into an initially empty queue.
pub open spec fn sort_spec(s: Seq<Neighbor>) -> Seq<Neighbor>
    decreases s.len(),
{
    if s.len() == 0 {
        Seq::<Neighbor>::empty()
    } else {
        insert_ordered(sort_spec(s.drop_last()), s.last())
    }
}

/// `insert_ordered` is insertion at the position that splits the
/// records into those not above the new one and those strictly above.
proof fn lemma_insert_ordered_at(s: Seq<Neighbor>, x: Neighbor, p: int)
    requires
        0 <= p <= s.len(),
        forall|i: int| 0 <= i < p ==> !nb_lt(x, #[trigger] s[i]),
        forall|i: int| p <= i < s.len() ==> nb_lt(x, #[trigger] s[i]),
    ensures
        insert_ordered(s, x) == s.subrange(0, p) + seq![x] + s.subrange(p, s.len() as int),
    decreases s.len(),
{
    if p == 0 {
        assert(insert_ordered(s, x) == seq![x] + s);
        assert(s.subrange(0, 0) + seq![x] + s.subrange(0, s.len() as int) =~= seq![x] + s);
    } else {
        let tail = s.subrange(1, s.len() as int);
        assert forall|i: int| 0 <= i < p - 1 implies !nb_lt(x, #[trigger] tail[i]) by {
            assert(tail[i] == s[i + 1]);
        }
        assert forall|i: int| p - 1 <= i < tail.len() implies nb_lt(x, #[trigger] tail[i]) by {
            assert(tail[i] == s[i + 1]);
        }
        lemma_insert_ordered_at(tail, x, p - 1);
        assert(!nb_lt(x, s[0]));
        assert(insert_ordered(s, x) == seq![s[0]] + insert_ordered(tail, x));
        assert(seq![s[0]] + (tail.subrange(0, p - 1) + seq![x] + tail.subrange(
            p - 1,
            tail.len() as int,
        )) =~= s.subrange(0, p) + seq![x] + s.subrange(p, s.len() as int));
    }
}

/// Compares two candidates in the candidate order.
pub fn nb_before(a: &Neighbor, b: &Neighbor) -> (r: bool)
    ensures
        r == nb_lt(*a, *b),
{
    a.distance < b.distance || (a.distance == b.distance && a.id < b.id)
}

/// Inserts a candidate into a queue kept sorted ascending, preserving
/// sortedness and (for a fresh slot) slot-distinctness.
pub fn insert_sorted(v: &mut Vec<Neighbor>, x: Neighbor)
    requires
        sorted(old(v)@),
    ensures
        final(v)@ == insert_ordered(old(v)@, x),
        sorted(final(v)@),
        final(v)@.len() == old(v)@.len() + 1,
        final(v)@.contains(x),
        forall|i: int| 0 <= i < final(v)@.len() ==>
            (final(v)@[i] == x || old(v)@.contains(#[trigger] final(v)@[i])),
        forall|i: int| 0 <= i < old(v)@.len() ==> final(v)@.contains(#[trigger] old(v)@[i]),
        forall|t: usize| #[trigger] has_slot(final(v)@, t) <==> (has_slot(old(v)@, t) || t == x.slot),
        distinct_slots(old(v)@) && !has_slot(old(v)@, x.slot) ==> distinct_slots(final(v)@),
    {
    let ghost pre = v@;
    let mut p: usize = v.len();
    while p > 0 && nb_before(&x, &v[p - 1])
        invariant
            v@ == pre,
            p <= v@.len(),
            sorted(v@),
            forall|i: int| p <= i < v@.len() ==> nb_lt(x, #[trigger] v@[i]),
        decreases p,
    {
        p = p - 1;
    }
    assert(forall|i: int| 0 <= i < p ==> nb_le(#[trigger] pre[i], x)) by {
        assert(p > 0 ==> !nb_lt(x, pre[p - 1]));
        assert(forall|i: int| 0 <= i < p ==> nb_le(#[trigger] pre[i], pre[p - 1]));
    }
    v.insert(p, x);
    assert(v@ =~= pre.subrange(0, p as int) + seq![x] + pre.subrange(p as int, pre.len() as int));
    proof {
        lemma_insert_ordered_at(pre, x, p as int);
    }
    assert forall|i: int, j: int| 0 <= i < j < v@.len() implies nb_le(v@[i], v@[j]) by {
        if i < p {
            assert(v@[i] == pre[i]);
        }
        if j > p {
            assert(v@[j] == pre[j - 1]);
        }
    }
    assert forall|t: usize| #[trigger] has_slot(v@, t) implies (has_slot(pre, t) || t == x.slot) by {
        let i = choose|i: int| 0 <= i < v@.len() && v@[i].slot == t;
        if i < p {
            assert(pre[i].slot == t);
        } else if i > p {
            assert(pre[i - 1].slot == t);
        }
    }
    assert forall|t: usize| has_slot(pre, t) implies #[trigger] has_slot(v@, t) by {
        let i = choose|i: int| 0 <= i < pre.len() && pre[i].slot == t;
        if i < p {
            assert(v@[i].slot == t);
        } else {
            assert(v@[i + 1].slot == t);
        }
    }
    assert(v@[p as int] == x);
    proof {
        if distinct_slots(pre) && !has_slot(pre, x.slot) {
            assert forall|i: int, j: int| 0 <= i < j < v@.len() implies v@[i].slot != v@[j].slot by {
                if i != p && j != p {
                    let i0: int = if i < p { i } else { i - 1 };
                    let j0: int = if j < p { j } else { j - 1 };
                    assert(v@[i] == pre[i0] && v@[j] == pre[j0]);
                } else if i == p {
                    assert(v@[j] == pre[j - 1]);
                    assert(!(exists|q: int| 0 <= q < pre.len() && pre[q].slot == x.slot));
                } else {
                    assert(v@[i] == pre[i]);
                    assert(!(exists|q: int| 0 <= q < pre.len() && pre[q].slot == x.slot));
                }
            }
        }
    }
    assert forall|i: int| 0 <= i < v@.len() implies
        (v@[i] == x || pre.contains(#[trigger] v@[i])) by {
        if i < p {
            assert(v@[i] == pre[i]);
        } else if i > p {
            assert(v@[i] == pre[i - 1]);
        }
    }
    assert forall|i: int| 0 <= i < pre.len() implies v@.contains(#[trigger] pre[i]) by {
        if i < p {
            assert(v@[i] == pre[i]);
        } else {
            assert(v@[i + 1] == pre[i]);
        }
    }
}

/// Sorts a batch of candidate records ascending in the candidate order.
/// The records' slots must be pairwise distinct, and stay so.
pub fn sort_neighbors(input: &Vec<Neighbor>) -> (out: Vec<Neighbor>)
    requires
        distinct_slots(input@),
    ensures
        out@ == sort_spec(input@),
        sorted(out@),
        distinct_slots(out@),
        out@.len() == input@.len(),
        forall|i: int| 0 <= i < out@.len() ==> input@.contains(#[trigger] out@[i]),
        forall|i: int| 0 <= i < input@.len() ==> out@.contains(#[trigger] input@[i]),
        forall|t: usize| #[trigger] has_slot(out@, t) <==> has_slot(input@, t),
{
    let mut out: Vec<Neighbor> = Vec::new();
    let mut i: usize = 0;
    while i < input.len()
        invariant
            i <= input@.len(),
            distinct_slots(input@),
            out@ == sort_spec(input@.take(i as int)),
            sorted(out@),
            distinct_slots(out@),
            out@.len() == i,
            forall|j: int| 0 <= j < out@.len() ==>
                (exists|q: int| 0 <= q < i && input@[q] == #[trigger] out@[j]),
            forall|q: int| 0 <= q < i ==> out@.contains(#[trigger] input@[q]),
            forall|t: usize| #[trigger] has_slot(out@, t) ==>
                (exists|q: int| 0 <= q < i && input@[q].slot == t),
            forall|q: int| 0 <= q < i ==> has_slot(out@, input@[q].slot),
        decreases input@.len() - i,
    {
        let x = input[i];
        assert(!has_slot(out@, x.slot)) by {
            if has_slot(out@, x.slot) {
                let q = choose|q: int| 0 <= q < i && input@[q].slot == x.slot;
                assert(input@[q].slot == input@[i as int].slot);
            }
        }
        insert_sorted(&mut out, x);
        assert(forall|q: int| 0 <= q < i + 1 ==> out@.contains(#[trigger] input@[q]));
        proof {
            assert(input@.take(i + 1).drop_last() =~= input@.take(i as int));
            assert(input@.take(i + 1).last() == input@[i as int]);
            assert(out@ == sort_spec(input@.take(i + 1)));
        }
        i += 1;
    }
    proof {
        assert(input@.take(input@.len() as int) =~= input@);
    }
    assert forall|t: usize| has_slot(input@, t) implies #[trigger] has_slot(out@, t) by {
        let q = choose|q: int| 0 <= q < input@.len() && input@[q].slot == t;
        assert(out@.contains(input@[q]));
        let j = choose|j: int| 0 <= j < out@.len() && out@[j] == input@[q];
        assert(out@[j].slot == t);
    }
    assert forall|j: int| 0 <= j < out@.len() implies input@.contains(#[trigger] out@[j]) by {
        let q = choose|q: int| 0 <= q < input@.len() && input@[q] == out@[j];
        assert(input@.contains(input@[q]));
    }
    out
}

} // verus!
