//! The flat encoding of a net: place ids in groups that zeros separate, a
//! group of consumed places and a group of produced places in turn.

use crate::petrinet::{lists, Places};
use vstd::prelude::*;

verus! {

/// `values` names `place`: the place is not the separator, and occurs.
pub open spec fn names_place(values: Seq<usize>, place: int) -> bool {
    place >= 1 && lists(values, place)
}

/// Each value is less than those behind it.
pub open spec fn strictly_increasing(xs: Seq<usize>) -> bool {
    forall|i: int, j: int| 0 <= i < j < xs.len() ==> xs[i] < xs[j]
}

/// `places` holds the places that `values` names, each once, in increasing order.
pub open spec fn is_places_of(values: Seq<usize>, places: Seq<usize>) -> bool {
    &&& strictly_increasing(places)
    &&& forall|p: int| names_place(values, p) <==> lists(places, p)
}

/// The places that `values` names, each once, in increasing order.
pub open spec fn places_of(values: Seq<usize>) -> Seq<usize> {
    choose|places: Seq<usize>| is_places_of(values, places)
}

/// Two increasing lists of the same places are one list.
pub proof fn lemma_increasing_unique(xs: Seq<usize>, ys: Seq<usize>)
    requires
        strictly_increasing(xs),
        strictly_increasing(ys),
        forall|p: int| lists(xs, p) <==> lists(ys, p),
    ensures
        xs == ys,
    decreases xs.len(),
{
    if xs.len() == 0 {
        if ys.len() > 0 {
            assert(lists(ys, ys[0] as int));
        }
        assert(xs =~= ys);
    } else {
        let top = xs.last();
        assert(lists(xs, xs[xs.len() - 1] as int));
        if ys.len() == 0 {
            assert(lists(ys, top as int));
        }
        assert(lists(ys, ys[ys.len() - 1] as int));
        let i = choose|i: int| 0 <= i < ys.len() && ys[i] == top;
        let j = choose|j: int| 0 <= j < xs.len() && xs[j] == ys.last();
        assert(top == ys.last());
        let xs_front = xs.drop_last();
        let ys_front = ys.drop_last();
        assert forall|p: int| lists(xs_front, p) <==> lists(ys_front, p) by {
            if lists(xs_front, p) {
                let k = choose|k: int| 0 <= k < xs_front.len() && xs_front[k] == p;
                assert(xs[k] == p);
                assert(lists(xs, p));
                let m = choose|m: int| 0 <= m < ys.len() && ys[m] == p;
                assert(ys_front[m] == p);
            }
            if lists(ys_front, p) {
                let k = choose|k: int| 0 <= k < ys_front.len() && ys_front[k] == p;
                assert(ys[k] == p);
                assert(lists(ys, p));
                let m = choose|m: int| 0 <= m < xs.len() && xs[m] == p;
                assert(xs_front[m] == p);
            }
        }
        lemma_increasing_unique(xs_front, ys_front);
        assert(xs =~= xs_front.push(top));
        assert(ys =~= ys_front.push(top));
    }
}

/// `places` with `v` in its place among them, unless it is there already.
spec fn with_place(places: Seq<usize>, v: usize) -> Seq<usize>
    decreases places.len(),
{
    if places.len() == 0 || places.last() < v {
        places.push(v)
    } else if places.last() == v {
        places
    } else {
        with_place(places.drop_last(), v).push(places.last())
    }
}

proof fn lemma_with_place(places: Seq<usize>, v: usize)
    requires
        strictly_increasing(places),
    ensures
        strictly_increasing(with_place(places, v)),
        forall|p: int|
            #![trigger lists(with_place(places, v), p)]
            #![trigger lists(places, p)]
            lists(with_place(places, v), p) <==> (lists(places, p) || p == v),
    decreases places.len(),
{
    let more = with_place(places, v);
    if places.len() == 0 || places.last() < v {
        assert(more[places.len() as int] == v);
        assert forall|p: int| lists(more, p) <==> (lists(places, p) || p == v) by {
            if lists(places, p) {
                let k = choose|k: int| 0 <= k < places.len() && places[k] == p;
                assert(more[k] == p);
            }
            if lists(more, p) {
                let k = choose|k: int| 0 <= k < more.len() && more[k] == p;
                if k < places.len() {
                    assert(places[k] == p);
                }
            }
        }
    } else if places.last() == v {
        assert(places[places.len() - 1] == v);
    } else {
        let front = places.drop_last();
        let top = places.last();
        let inner = with_place(front, v);
        lemma_with_place(front, v);
        assert forall|p: int| lists(more, p) <==> (lists(places, p) || p == v) by {
            if lists(places, p) {
                let k = choose|k: int| 0 <= k < places.len() && places[k] == p;
                if k < front.len() {
                    assert(front[k] == p);
                    assert(lists(front, p));
                    let m = choose|m: int| 0 <= m < inner.len() && inner[m] == p;
                    assert(more[m] == p);
                } else {
                    assert(more[inner.len() as int] == p);
                }
            }
            if p == v {
                assert(lists(inner, p));
                let m = choose|m: int| 0 <= m < inner.len() && inner[m] == p;
                assert(more[m] == p);
            }
            if lists(more, p) {
                let k = choose|k: int| 0 <= k < more.len() && more[k] == p;
                if k < inner.len() {
                    assert(inner[k] == p);
                    assert(lists(inner, p));
                    if p != v {
                        assert(lists(front, p));
                        let m = choose|m: int| 0 <= m < front.len() && front[m] == p;
                        assert(places[m] == p);
                    }
                } else {
                    assert(places[places.len() - 1] == p);
                }
            }
        }
        assert forall|i: int, j: int| 0 <= i < j < more.len() implies more[i] < more[j] by {
            if j < inner.len() {
                assert(inner[i] < inner[j]);
            } else {
                assert(lists(inner, inner[i] as int));
                if inner[i] != v {
                    assert(lists(front, inner[i] as int));
                    let m = choose|m: int| 0 <= m < front.len() && front[m] == inner[i];
                    assert(places[m] < places[places.len() - 1]);
                }
            }
        }
    }
}

/// Every flat sequence has its list of places: `places_of` is that list.
pub proof fn lemma_places_of(values: Seq<usize>)
    ensures
        is_places_of(values, places_of(values)),
    decreases values.len(),
{
    if values.len() == 0 {
        assert(is_places_of(values, Seq::<usize>::empty()));
    } else {
        let front = values.drop_last();
        let v = values.last();
        lemma_places_of(front);
        let before = places_of(front);
        let places = if v == 0 {
            before
        } else {
            with_place(before, v)
        };
        lemma_with_place(before, v);
        assert forall|p: int| names_place(values, p) <==> lists(places, p) by {
            if names_place(values, p) {
                let j = choose|j: int| 0 <= j < values.len() && values[j] == p;
                if j < front.len() {
                    assert(front[j] == p);
                }
            }
            if names_place(front, p) {
                let j = choose|j: int| 0 <= j < front.len() && front[j] == p;
                assert(values[j] == p);
            }
            if p == v && v != 0 {
                assert(values[values.len() - 1] == p);
            }
        }
        assert(is_places_of(values, places));
    }
}

/// The places are numbered without a gap from 1 on exactly where the list of
/// places reads 1, 2, 3, ...
pub proof fn lemma_contiguous_is_numbered(values: Seq<usize>)
    ensures
        contiguous_from_one(values) <==> forall|k: int|
            0 <= k < places_of(values).len() ==> #[trigger] places_of(values)[k] == k + 1,
{
    lemma_places_of(values);
    let places = places_of(values);
    if contiguous_from_one(values) {
        assert forall|k: int| 0 <= k < places.len() implies #[trigger] places[k] == k + 1 by {
            lemma_numbered_upto(values, places, k);
        }
    }
    if forall|k: int| 0 <= k < places.len() ==> #[trigger] places[k] == k + 1 {
        assert forall|p: int, q: int|
            #![trigger names_place(values, p), names_place(values, q)]
            1 <= q < p && names_place(values, p) implies names_place(values, q) by {
            let k = choose|k: int| 0 <= k < places.len() && places[k] == p;
            assert(places[q - 1] == q);
        }
    }
}

proof fn lemma_numbered_upto(values: Seq<usize>, places: Seq<usize>, k: int)
    requires
        is_places_of(values, places),
        contiguous_from_one(values),
        0 <= k < places.len(),
    ensures
        places[k] == k + 1,
    decreases k,
{
    if k > 0 {
        lemma_numbered_upto(values, places, k - 1);
    }
    assert(lists(places, places[k] as int));
    assert(names_place(values, places[k] as int));
    if places[k] > k + 1 {
        assert(names_place(values, k + 1));
        let j = choose|j: int| 0 <= j < places.len() && places[j] == k + 1;
        if j < k {
            assert(places[j] <= places[k - 1]);
        } else if j > k {
            assert(places[k] < places[j]);
        }
    }
}

/// The places that `values` names are numbered without a gap from 1 on: with
/// a place, every smaller place is named too.
pub open spec fn contiguous_from_one(values: Seq<usize>) -> bool {
    forall|p: int, q: int|
        #![trigger names_place(values, p), names_place(values, q)]
        1 <= q < p && names_place(values, p) ==> names_place(values, q)
}

/// `gap` is the first place that is missing from `values`, and a greater
/// place is named: the numbering breaks at `gap`.
pub open spec fn is_first_gap(values: Seq<usize>, gap: int) -> bool {
    &&& gap >= 1
    &&& !names_place(values, gap)
    &&& forall|q: int| 1 <= q < gap ==> names_place(values, q)
    &&& exists|p: int| p > gap && names_place(values, p)
}

/// A numbering that breaks somewhere is not contiguous.
pub proof fn lemma_gap_breaks_contiguity(values: Seq<usize>, gap: int)
    requires
        is_first_gap(values, gap),
    ensures
        !contiguous_from_one(values),
{
    let p = choose|p: int| p > gap && names_place(values, p);
    assert(names_place(values, p) && !names_place(values, gap));
}

/// A numbering that is not contiguous breaks somewhere.
pub proof fn lemma_first_gap_exists(values: Seq<usize>)
    requires
        !contiguous_from_one(values),
    ensures
        exists|gap: int| is_first_gap(values, gap),
{
    let (p, q) = choose|p: int, q: int|
        #![trigger names_place(values, p), names_place(values, q)]
        1 <= q < p && names_place(values, p) && !names_place(values, q);
    lemma_first_gap_below(values, p, q);
}

proof fn lemma_first_gap_below(values: Seq<usize>, named: int, missing: int)
    requires
        1 <= missing < named,
        names_place(values, named),
        !names_place(values, missing),
    ensures
        exists|gap: int| is_first_gap(values, gap),
    decreases missing,
{
    if forall|q: int| 1 <= q < missing ==> names_place(values, q) {
        assert(is_first_gap(values, missing));
    } else {
        let q = choose|q: int| 1 <= q < missing && !names_place(values, q);
        lemma_first_gap_below(values, named, q);
    }
}

/// A numbering breaks at one place at most.
pub proof fn lemma_first_gap_unique(values: Seq<usize>, a: int, b: int)
    requires
        is_first_gap(values, a),
        is_first_gap(values, b),
    ensures
        a == b,
{
}

/// What `PartitionError::InvalidPlaceNumbering` says in words.
pub const INVALID_PLACE_NUMBERING: &'static str =
    "Partition values should start at 1 and increament in +1 steps; zeros are the separators";

/// Why a partition is refused.
#[derive(Debug, Clone, Copy, PartialEq, Eq, Structural)]
pub enum PartitionError {
    /// The places are not numbered 1, 2, 3, ...: place `missing` is the first
    /// that is not named, and a greater one is.
    InvalidPlaceNumbering { missing: usize },
}

impl PartitionError {
    /// What is wrong, in words.
    pub fn message(&self) -> (text: &'static str)
        ensures
            text == INVALID_PLACE_NUMBERING,
    {
        INVALID_PLACE_NUMBERING
    }
}

/// A flat sequence of place ids and separators, as it was read: nothing is
/// known of its numbering yet.
#[derive(Debug)]
pub struct Partition {
    values: Vec<usize>,
}

impl View for Partition {
    type V = Seq<usize>;

    closed spec fn view(&self) -> Seq<usize> {
        self.values@
    }
}

impl Clone for Partition {
    fn clone(&self) -> (copy: Self)
        ensures
            copy@ == self@,
    {
        Partition { values: self.values.clone() }
    }
}

/// Puts `v` in its place in the increasing list `out`, unless it is there already.
fn insert_sorted(out: &mut Vec<usize>, v: usize)
    requires
        strictly_increasing(old(out)@),
    ensures
        strictly_increasing(final(out)@),
        forall|p: int| lists(final(out)@, p) <==> (lists(old(out)@, p) || p == v),
{
    let mut pos: usize = 0;
    while pos < out.len() && out[pos] < v
        invariant
            pos <= out.len(),
            out@ == old(out)@,
            forall|k: int| 0 <= k < pos ==> out@[k] < v,
        decreases out.len() - pos,
    {
        pos += 1;
    }
    if pos < out.len() && out[pos] == v {
        assert(lists(out@, v as int));
    } else {
        out.insert(pos, v);
        proof {
            let before = old(out)@;
            let after = out@;
            assert(after[pos as int] == v);
            assert forall|p: int| lists(after, p) <==> (lists(before, p) || p == v) by {
                if lists(before, p) {
                    let k = choose|k: int| 0 <= k < before.len() && before[k] == p;
                    if k < pos {
                        assert(after[k] == p);
                    } else {
                        assert(after[k + 1] == p);
                    }
                }
                if lists(after, p) && p != v {
                    let k = choose|k: int| 0 <= k < after.len() && after[k] == p;
                    if k < pos {
                        assert(before[k] == p);
                    } else {
                        assert(before[k - 1] == p);
                    }
                }
            }
        }
    }
}

impl Partition {
    /// The partition that holds `values`, unchecked.
    pub fn new(values: Vec<usize>) -> (partition: Self)
        ensures
            partition@ == values@,
    {
        Partition { values }
    }

    /// The raw values, separators included.
    pub fn values(&self) -> (values: &Vec<usize>)
        ensures
            values@ == self@,
    {
        &self.values
    }

    /// Whether the places are numbered without a gap from 1 on. A partition
    /// that names no place at all is valid.
    pub fn is_valid(partition: Partition) -> (valid: bool)
        ensures
            valid == contiguous_from_one(partition@),
    {
        match first_gap(&partition.values) {
            None => true,
            Some(gap) => {
                proof {
                    lemma_gap_breaks_contiguity(partition@, gap as int);
                }
                false
            },
        }
    }

    /// The places that the partition names, each once, in increasing order.
    pub fn unique_sorted_places(self) -> (places: Places)
        ensures
            places@ == places_of(self@),
            strictly_increasing(places@),
            forall|p: int| names_place(self@, p) <==> lists(places@, p),
    {
        sorted_places(&self.values)
    }
}

/// Where the numbering of the places in `values` breaks, if it does.
fn first_gap(values: &Vec<usize>) -> (gap: Option<usize>)
    ensures
        match gap {
            None => contiguous_from_one(values@),
            Some(g) => is_first_gap(values@, g as int),
        },
{
    let xs: Places = sorted_places(values);
    let mut ix: usize = 0;
    while ix < xs.len()
        invariant
            ix <= xs.len(),
            xs@ == places_of(values@),
            strictly_increasing(xs@),
            forall|p: int| names_place(values@, p) <==> lists(xs@, p),
            forall|k: int| 0 <= k < ix ==> xs@[k] == k + 1,
        decreases xs.len() - ix,
    {
        let x: usize = xs[ix];
        proof {
            assert(names_place(values@, x as int));
        }
        if ix < 1 {
            if x != 1 {
                proof {
                    assert(x > 1);
                    if names_place(values@, 1) {
                        let k = choose|k: int| 0 <= k < xs@.len() && xs@[k] == 1;
                        assert(xs@[0] <= xs@[k]);
                    }
                }
                return Some(1);
            }
        } else {
            let prev: usize = xs[ix - 1];
            let diff: usize = x - prev;
            if diff > 1 {
                proof {
                    let gap = prev + 1;
                    if names_place(values@, gap) {
                        let k = choose|k: int| 0 <= k < xs@.len() && xs@[k] == gap;
                        if k < ix {
                            assert(xs@[k] == k + 1);
                        } else {
                            assert(xs@[ix as int] <= xs@[k]);
                        }
                    }
                    assert forall|q: int| 1 <= q < gap implies names_place(values@, q) by {
                        assert(xs@[q - 1] == q);
                    }
                }
                return Some(prev + 1);
            }
        }
        ix += 1;
    }
    proof {
        lemma_contiguous_is_numbered(values@);
    }
    None
}

/// The places that `values` names, each once, in increasing order.
pub(crate) fn sorted_places(values: &Vec<usize>) -> (places: Places)
    ensures
        places@ == places_of(values@),
        strictly_increasing(places@),
        forall|p: int| names_place(values@, p) <==> lists(places@, p),
{
    let mut out: Vec<usize> = Vec::new();
    let mut i: usize = 0;
    while i < values.len()
        invariant
            i <= values.len(),
            strictly_increasing(out@),
            forall|p: int| names_place(values@.take(i as int), p) <==> lists(out@, p),
        decreases values.len() - i,
    {
        let v: usize = values[i];
        let ghost before = out@;
        if v != 0 {
            insert_sorted(&mut out, v);
        }
        proof {
            let seen = values@.take(i as int);
            let now = values@.take(i + 1);
            assert(now.drop_last() == seen);
            assert forall|p: int| names_place(now, p) <==> lists(out@, p) by {
                if names_place(now, p) {
                    let j = choose|j: int| 0 <= j < now.len() && now[j] == p;
                    if j < i {
                        assert(seen[j] == p);
                    }
                }
                if names_place(seen, p) {
                    let j = choose|j: int| 0 <= j < seen.len() && seen[j] == p;
                    assert(now[j] == p);
                }
                if p == v && v != 0 {
                    assert(now[i as int] == p);
                }
            }
        }
        i += 1;
    }
    proof {
        assert(values@.take(i as int) == values@);
        assert(is_places_of(values@, out@));
        lemma_increasing_unique(out@, places_of(values@));
    }
    out
}

/// A partition whose places are known to be numbered without a gap from 1 on.
/// Only such a partition becomes a net.
#[derive(Debug)]
pub struct ValidPartition {
    values: Vec<usize>,
}

impl View for ValidPartition {
    type V = Seq<usize>;

    closed spec fn view(&self) -> Seq<usize> {
        self.values@
    }
}

impl ValidPartition {
    #[verifier::type_invariant]
    spec fn checked(self) -> bool {
        contiguous_from_one(self.values@)
    }

    /// Checks the numbering of `partition` and keeps its values as they are,
    /// or says where the numbering breaks.
    pub fn new(partition: Partition) -> (checked: Result<Self, PartitionError>)
        ensures
            match checked {
                Ok(valid) => contiguous_from_one(partition@) && valid@ == partition@,
                Err(PartitionError::InvalidPlaceNumbering { missing }) => {
                    &&& !contiguous_from_one(partition@)
                    &&& is_first_gap(partition@, missing as int)
                },
            },
    {
        match first_gap(&partition.values) {
            None => Ok(ValidPartition { values: partition.values }),
            Some(gap) => {
                proof {
                    lemma_gap_breaks_contiguity(partition@, gap as int);
                }
                Err(PartitionError::InvalidPlaceNumbering { missing: gap })
            },
        }
    }

    /// The raw values, separators included.
    pub fn values(&self) -> (values: &Vec<usize>)
        ensures
            values@ == self@,
            contiguous_from_one(self@),
    {
        proof {
            use_type_invariant(self);
        }
        &self.values
    }
}

} // verus!
