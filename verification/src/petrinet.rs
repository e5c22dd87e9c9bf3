//! The net model: transitions over numbered places, and the nets built from them.

use vstd::prelude::*;

verus! {

/// A list of place ids. Places are numbered from 1; the id is the place.
pub type Places = Vec<usize>;

/// `place` is one of `places`.
pub open spec fn lists(places: Seq<usize>, place: int) -> bool {
    exists|k: int| 0 <= k < places.len() && places[k] == place
}

/// What a transition is, mathematically: the places it takes a token from and
/// the places it puts a token into, each in the order in which they were given.
pub struct TransitionModel {
    pub consume: Seq<usize>,
    pub produce: Seq<usize>,
}

impl TransitionModel {
    /// `place` is among the places this transition takes a token from.
    pub open spec fn consumes(self, place: int) -> bool {
        lists(self.consume, place)
    }

    /// `place` is among the places this transition puts a token into.
    pub open spec fn produces(self, place: int) -> bool {
        lists(self.produce, place)
    }

    /// `place` occurs in the transition at all.
    pub open spec fn mentions(self, place: int) -> bool {
        self.consumes(place) || self.produces(place)
    }

    /// The greatest place id the transition mentions, or 0 where it mentions none.
    pub open spec fn highest_place(self) -> nat {
        if max_of(self.consume) > max_of(self.produce) {
            max_of(self.consume)
        } else {
            max_of(self.produce)
        }
    }
}

/// A transition of a net.
#[derive(Debug, PartialEq, PartialOrd)]
pub struct Transition {
    consume: Places,
    produce: Places,
}

impl View for Transition {
    type V = TransitionModel;

    closed spec fn view(&self) -> TransitionModel {
        TransitionModel { consume: self.consume@, produce: self.produce@ }
    }
}

impl Transition {
    /// The transition that takes a token from each of `consume` and puts one
    /// into each of `produce`.
    pub fn new(consume: Places, produce: Places) -> (tr: Self)
        ensures
            tr@.consume == consume@,
            tr@.produce == produce@,
    {
        Transition { consume, produce }
    }

    /// The places the transition takes a token from, in the order given.
    pub fn consume(&self) -> (places: &Places)
        ensures
            places@ == self@.consume,
    {
        &self.consume
    }

    /// The places the transition puts a token into, in the order given.
    pub fn produce(&self) -> (places: &Places)
        ensures
            places@ == self@.produce,
    {
        &self.produce
    }
}

/// The greatest value of `xs`, and 0 where `xs` is empty.
pub open spec fn max_of(xs: Seq<usize>) -> nat
    decreases xs.len(),
{
    if xs.len() == 0 {
        0
    } else {
        let rest = max_of(xs.drop_last());
        if xs.last() > rest {
            xs.last() as nat
        } else {
            rest
        }
    }
}

/// `max_of(xs)` bounds every value of `xs`, and is one of them unless `xs` is empty.
pub proof fn lemma_max_of(xs: Seq<usize>)
    ensures
        forall|k: int| 0 <= k < xs.len() ==> xs[k] <= max_of(xs),
        xs.len() == 0 ==> max_of(xs) == 0,
        xs.len() > 0 ==> exists|k: int| 0 <= k < xs.len() && xs[k] == max_of(xs),
    decreases xs.len(),
{
    if xs.len() > 0 {
        let front = xs.drop_last();
        lemma_max_of(front);
        assert forall|k: int| 0 <= k < xs.len() implies xs[k] <= max_of(xs) by {
            if k < front.len() {
                assert(front[k] == xs[k]);
            }
        }
        if xs.last() > max_of(front) || front.len() == 0 {
            assert(xs[xs.len() - 1] == max_of(xs));
        } else {
            let k = choose|k: int| 0 <= k < front.len() && front[k] == max_of(front);
            assert(xs[k] == max_of(xs));
        }
    }
}

/// The greatest place id in `xs`, or 0 where there is none.
pub fn max(xs: &Places) -> (m: &usize)
    ensures
        *m == max_of(xs@),
        forall|k: int| 0 <= k < xs@.len() ==> xs@[k] <= *m,
        xs@.len() == 0 ==> *m == 0,
        xs@.len() > 0 ==> exists|k: int| 0 <= k < xs@.len() && xs@[k] == *m,
{
    let mut best: &usize = &0;
    let mut i: usize = 0;
    while i < xs.len()
        invariant
            i <= xs.len(),
            *best == max_of(xs@.take(i as int)),
        decreases xs.len() - i,
    {
        proof {
            assert(xs@.take(i + 1).drop_last() == xs@.take(i as int));
        }
        if xs[i] > *best {
            best = &xs[i];
        }
        i += 1;
    }
    proof {
        assert(xs@.take(i as int) == xs@);
        lemma_max_of(xs@);
    }
    best
}

/// Whether `place` is one of `places`.
pub fn has_place(places: &Places, place: usize) -> (found: bool)
    ensures
        found == lists(places@, place as int),
{
    let mut i: usize = 0;
    while i < places.len()
        invariant
            i <= places.len(),
            forall|k: int| 0 <= k < i ==> places@[k] != place,
        decreases places.len() - i,
    {
        if places[i] == place {
            return true;
        }
        i += 1;
    }
    false
}

/// What a net is, mathematically: its transitions in order. The position of a
/// transition is its identity.
pub type NetModel = Seq<TransitionModel>;

/// The models of the transitions in `ts`, in order.
pub open spec fn models_of(ts: Seq<Transition>) -> NetModel {
    Seq::new(ts.len(), |i: int| ts[i]@)
}

/// Some transition of `net` mentions `place`.
pub open spec fn net_mentions(net: NetModel, place: int) -> bool {
    exists|t: int| 0 <= t < net.len() && #[trigger] net[t].mentions(place)
}

/// The greatest place id mentioned anywhere in `net`, or 0 where none is.
pub open spec fn highest_place(net: NetModel) -> nat
    decreases net.len(),
{
    if net.len() == 0 {
        0
    } else {
        let rest = highest_place(net.drop_last());
        if net.last().highest_place() > rest {
            net.last().highest_place()
        } else {
            rest
        }
    }
}

/// The number of places of `net`: the greatest place id it mentions, and 1
/// where it mentions none. Place 1 always exists: it holds the start token.
pub open spec fn place_count_of(net: NetModel) -> nat {
    if highest_place(net) < 1 {
        1
    } else {
        highest_place(net)
    }
}

/// `tr.highest_place()` bounds every place `tr` mentions, and is mentioned
/// itself unless it is 0.
pub proof fn lemma_transition_highest_place(tr: TransitionModel)
    ensures
        forall|p: int| tr.mentions(p) ==> p <= tr.highest_place(),
        tr.highest_place() == 0 || tr.mentions(tr.highest_place() as int),
{
    lemma_max_of(tr.consume);
    lemma_max_of(tr.produce);
}

/// `highest_place(net)` bounds every place `net` mentions, and is mentioned
/// itself unless it is 0.
pub proof fn lemma_highest_place(net: NetModel)
    ensures
        forall|p: int| net_mentions(net, p) ==> p <= highest_place(net),
        highest_place(net) == 0 || net_mentions(net, highest_place(net) as int),
    decreases net.len(),
{
    if net.len() > 0 {
        let front = net.drop_last();
        lemma_highest_place(front);
        lemma_transition_highest_place(net.last());
        assert forall|p: int| net_mentions(net, p) implies p <= highest_place(net) by {
            let t = choose|t: int| 0 <= t < net.len() && #[trigger] net[t].mentions(p);
            if t < front.len() {
                assert(front[t].mentions(p));
                assert(net_mentions(front, p));
            }
        }
        if highest_place(net) != 0 {
            let top = highest_place(net) as int;
            if net.last().highest_place() > highest_place(front) {
                assert(net[net.len() - 1].mentions(top));
            } else {
                let t = choose|t: int| 0 <= t < front.len() && #[trigger] front[t].mentions(top);
                assert(net[t].mentions(top));
            }
        }
    }
}

/// The place count is at least 1, no mentioned place lies above it, and it is
/// itself mentioned unless it is 1.
pub proof fn lemma_place_count(net: NetModel)
    ensures
        place_count_of(net) >= 1,
        forall|p: int| net_mentions(net, p) ==> p <= place_count_of(net),
        place_count_of(net) == 1 || net_mentions(net, place_count_of(net) as int),
{
    lemma_highest_place(net);
}

/// Only one number has the three properties of `lemma_place_count`.
pub proof fn lemma_place_count_unique(net: NetModel, n: int)
    requires
        n >= 1,
        forall|p: int| net_mentions(net, p) ==> p <= n,
        n == 1 || net_mentions(net, n),
    ensures
        n == place_count_of(net),
{
    lemma_place_count(net);
}

/// A net: an ordered, immutable collection of transitions.
#[derive(Debug, PartialEq, PartialOrd)]
pub struct Petrinet {
    transitions: Vec<Transition>,
}

impl View for Petrinet {
    type V = NetModel;

    closed spec fn view(&self) -> NetModel {
        models_of(self.transitions@)
    }
}

impl Petrinet {
    /// The net of the transitions `x`, in their order.
    pub fn new(x: Vec<Transition>) -> (net: Self)
        ensures
            net@ == models_of(x@),
    {
        Petrinet { transitions: x }
    }

    /// The number of places: the greatest place id that any transition
    /// mentions, and 1 for a net that mentions none.
    pub fn place_count(&self) -> (n: usize)
        ensures
            n == place_count_of(self@),
            n >= 1,
            forall|p: int| net_mentions(self@, p) ==> p <= n,
            n == 1 || net_mentions(self@, n as int),
    {
        let mut acc: usize = 0;
        let mut i: usize = 0;
        while i < self.transitions.len()
            invariant
                i <= self.transitions.len(),
                acc == highest_place(self@.take(i as int)),
            decreases self.transitions.len() - i,
        {
            proof {
                assert(self@.take(i + 1).drop_last() == self@.take(i as int));
            }
            let tr = &self.transitions[i];
            let cmax: usize = *max(&tr.consume);
            let pmax: usize = *max(&tr.produce);
            let m: usize = if cmax > pmax { cmax } else { pmax };
            if m > acc {
                acc = m;
            }
            i += 1;
        }
        proof {
            assert(self@.take(i as int) == self@);
            lemma_place_count(self@);
        }
        if acc < 1 {
            1
        } else {
            acc
        }
    }

    /// The transitions, in order.
    pub fn transitions(&self) -> (ts: &Vec<Transition>)
        ensures
            models_of(ts@) == self@,
    {
        &self.transitions
    }

    /// The transition at position `t`, or `None` where the net has no such position.
    pub fn transition(&self, t: usize) -> (found: Option<&Transition>)
        ensures
            match found {
                Some(tr) => t < self@.len() && tr@ == self@[t as int],
                None => t >= self@.len(),
            },
    {
        if t < self.transitions.len() {
            Some(&self.transitions[t])
        } else {
            None
        }
    }

    /// The number of transitions.
    pub fn transition_count(&self) -> (n: usize)
        ensures
            n == self@.len(),
    {
        self.transitions.len()
    }
}

} // verus!
