//! The execution engine: a marking of a net's places, the test whether a
//! transition is enabled, and the marking that firing it leaves.

use crate::petrinet::{
    has_place, place_count_of, NetModel, Petrinet, Places, Transition, TransitionModel,
};
use vstd::prelude::*;

verus! {

/// `place` holds a token in `marking`. The token of place `p` stands at index
/// `p - 1`; a place outside `1..=marking.len()` holds none.
pub open spec fn has_token(marking: Seq<bool>, place: int) -> bool {
    1 <= place <= marking.len() && marking[place - 1]
}

/// The number of tokens that `place` holds in `marking`.
pub open spec fn token_count(marking: Seq<bool>, place: int) -> nat {
    if has_token(marking, place) {
        1
    } else {
        0
    }
}

/// The marking every execution starts from: one token, at place 1.
pub open spec fn initial_marking(places: nat) -> Seq<bool> {
    Seq::new(places, |i: int| i == 0)
}

/// Every place that `tr` consumes from holds a token in `marking`.
pub open spec fn can_fire(tr: TransitionModel, marking: Seq<bool>) -> bool {
    forall|k: int| 0 <= k < tr.consume.len() ==> has_token(marking, #[trigger] tr.consume[k] as int)
}

/// Transition `t` exists in `net` and can fire in `marking`.
pub open spec fn enabled_in(net: NetModel, marking: Seq<bool>, t: int) -> bool {
    0 <= t < net.len() && can_fire(net[t], marking)
}

/// Whether `place` holds a token once `tr` has fired in `marking`.
pub open spec fn token_after(tr: TransitionModel, marking: Seq<bool>, place: int) -> bool {
    match (tr.consumes(place), tr.produces(place)) {
        (true, true) => true,
        (true, false) => false,
        (false, true) => true,
        (false, false) => has_token(marking, place),
    }
}

/// The marking that `tr` leaves when it fires in `marking`. Each place is
/// decided from the old marking alone.
pub open spec fn marking_after(tr: TransitionModel, marking: Seq<bool>) -> Seq<bool> {
    Seq::new(marking.len(), |i: int| token_after(tr, marking, i + 1))
}

/// The marking after an attempt to fire transition `t` of `net` in `marking`:
/// the attempt changes nothing unless `t` is enabled.
pub open spec fn fired(net: NetModel, marking: Seq<bool>, t: int) -> Seq<bool> {
    if enabled_in(net, marking, t) {
        marking_after(net[t], marking)
    } else {
        marking
    }
}

/// The marking after the attempts `ts`, made one after the other from `marking`.
pub open spec fn run(net: NetModel, marking: Seq<bool>, ts: Seq<usize>) -> Seq<bool>
    decreases ts.len(),
{
    if ts.len() == 0 {
        marking
    } else {
        fired(net, run(net, marking, ts.drop_last()), ts.last() as int)
    }
}

/// Some sequence of attempts leads from the initial marking of `net` to `marking`.
pub open spec fn reachable(net: NetModel, marking: Seq<bool>) -> bool {
    exists|ts: Seq<usize>| #[trigger] run(net, initial_marking(place_count_of(net)), ts) == marking
}

/// What an execution is, mathematically: a net and a marking of its places.
pub struct ExecutionModel {
    pub net: NetModel,
    pub marking: Seq<bool>,
}

/// A state of a net's execution. The net is shared and never changed; firing
/// consumes the state and gives the next one.
#[derive(Debug)]
pub struct Execution<'a> {
    net: &'a Petrinet,
    marking: Vec<bool>,
}

impl<'a> View for Execution<'a> {
    type V = ExecutionModel;

    closed spec fn view(&self) -> ExecutionModel {
        ExecutionModel { net: self.net@, marking: self.marking@ }
    }
}

impl<'a> vstd::std_specs::convert::FromSpecImpl<&'a Petrinet> for Execution<'a> {
    open spec fn obeys_from_spec() -> bool {
        false
    }

    open spec fn from_spec(net: &'a Petrinet) -> Self {
        arbitrary()
    }
}

impl<'a> From<&'a Petrinet> for Execution<'a> {
    /// The initial execution of `net`: a token at place 1 and nowhere else.
    fn from(net: &'a Petrinet) -> (e: Self)
        ensures
            e@.net == net@,
            e@.marking == initial_marking(place_count_of(net@)),
            e@.marking.len() == place_count_of(net@),
            forall|place: int| has_token(e@.marking, place) <==> place == 1,
            reachable(e@.net, e@.marking),
    {
        let p: usize = net.place_count();
        let mut marking: Vec<bool> = Vec::new();
        marking.push(true);
        let mut i: usize = 1;
        while i < p
            invariant
                1 <= i <= p,
                marking@ == initial_marking(i as nat),
            decreases p - i,
        {
            marking.push(false);
            i += 1;
        }
        proof {
            lemma_initial_reachable(net@);
        }
        Execution { net, marking }
    }
}

impl<'a> Execution<'a> {
    #[verifier::type_invariant]
    spec fn reached(self) -> bool {
        reachable(self.net@, self.marking@)
    }

    /// The net that is executed.
    pub fn net(&self) -> (net: &'a Petrinet)
        ensures
            net@ == self@.net,
    {
        self.net
    }

    /// The current marking: entry `p - 1` tells whether place `p` holds a token.
    pub fn marking(&self) -> (marking: &Vec<bool>)
        ensures
            marking@ == self@.marking,
            marking@.len() == place_count_of(self@.net),
            reachable(self@.net, self@.marking),
    {
        proof {
            use_type_invariant(self);
            lemma_reachable_len(self.net@, self.marking@);
        }
        &self.marking
    }

    /// Whether transition `t` is enabled: it exists, and every place it
    /// consumes from holds a token.
    pub fn enabled(&self, t: usize) -> (b: bool)
        ensures
            b == enabled_in(self@.net, self@.marking, t as int),
            t >= self@.net.len() ==> !b,
    {
        match self.net.transition(t) {
            None => false,
            Some(tr) => {
                let cs: &Places = tr.consume();
                let mut k: usize = 0;
                while k < cs.len()
                    invariant
                        k <= cs.len(),
                        cs@ == self@.net[t as int].consume,
                        forall|j: int|
                            0 <= j < k ==> has_token(self@.marking, #[trigger] cs@[j] as int),
                    decreases cs.len() - k,
                {
                    let place: usize = cs[k];
                    if place == 0 || place > self.marking.len() || !self.marking[place - 1] {
                        return false;
                    }
                    k += 1;
                }
                true
            },
        }
    }

    /// Fires transition `t`. Where `t` is not enabled, or no such transition
    /// exists, the execution comes back unchanged.
    pub fn fire(self, t: usize) -> (next: Self)
        ensures
            next@.net == self@.net,
            next@.marking == fired(self@.net, self@.marking, t as int),
            next@.marking.len() == self@.marking.len(),
            !enabled_in(self@.net, self@.marking, t as int) ==> next@ == self@,
            t >= self@.net.len() ==> next@ == self@,
            reachable(next@.net, next@.marking),
    {
        proof {
            use_type_invariant(&self);
            lemma_fired_reachable(self.net@, self.marking@, t);
        }
        if !self.enabled(t) {
            return self;
        }
        let net: &'a Petrinet = self.net;
        let tr: &Transition = net.transition(t).unwrap();
        let cs: &Places = tr.consume();
        let ps: &Places = tr.produce();
        let mut new_marking: Vec<bool> = Vec::new();
        let mut pos: usize = 0;
        while pos < self.marking.len()
            invariant
                pos <= self.marking.len(),
                cs@ == tr@.consume,
                ps@ == tr@.produce,
                new_marking@ == marking_after(tr@, self.marking@).take(pos as int),
            decreases self.marking.len() - pos,
        {
            let place: usize = pos + 1;
            let is_consumed: bool = has_place(cs, place);
            let is_produced: bool = has_place(ps, place);
            let token: bool = match (is_consumed, is_produced) {
                (true, true) => true,
                (true, false) => false,
                (false, true) => true,
                (false, false) => self.marking[pos],
            };
            new_marking.push(token);
            pos += 1;
        }
        proof {
            let after = marking_after(tr@, self.marking@);
            assert(after.take(pos as int) == after);
            assert(new_marking@ == fired(self.net@, self.marking@, t as int));
        }
        Execution { net, marking: new_marking }
    }
}

/// In the initial marking of a net, place 1 holds a token and no other place does.
pub proof fn lemma_initial_marking(net: NetModel, place: int)
    ensures
        initial_marking(place_count_of(net)).len() == place_count_of(net),
        has_token(initial_marking(place_count_of(net)), place) <==> place == 1,
{
}

/// An attempt to fire a transition that is not enabled changes nothing.
pub proof fn lemma_disabled_fire_changes_nothing(net: NetModel, marking: Seq<bool>, t: int)
    requires
        !enabled_in(net, marking, t),
    ensures
        fired(net, marking, t) == marking,
{
}

/// No transition stands at or behind the number of transitions: such a
/// position is never enabled, and an attempt to fire it changes nothing.
pub proof fn lemma_out_of_range(net: NetModel, marking: Seq<bool>, t: int)
    requires
        t >= net.len(),
    ensures
        !enabled_in(net, marking, t),
        fired(net, marking, t) == marking,
{
}

/// No attempt changes the number of places.
pub proof fn lemma_run_len(net: NetModel, marking: Seq<bool>, ts: Seq<usize>)
    ensures
        run(net, marking, ts).len() == marking.len(),
    decreases ts.len(),
{
    if ts.len() > 0 {
        lemma_run_len(net, marking, ts.drop_last());
    }
}

/// A reachable marking has one entry for each place of the net.
pub proof fn lemma_reachable_len(net: NetModel, marking: Seq<bool>)
    requires
        reachable(net, marking),
    ensures
        marking.len() == place_count_of(net),
{
    let start = initial_marking(place_count_of(net));
    let ts = choose|ts: Seq<usize>| #[trigger] run(net, start, ts) == marking;
    lemma_run_len(net, start, ts);
}

/// The net is 1-safe: a reachable marking has one entry for each place of
/// the net, each place holds no token or one, and nothing but a place of the
/// net holds a token.
pub proof fn lemma_one_safe(net: NetModel, marking: Seq<bool>, place: int)
    requires
        reachable(net, marking),
    ensures
        marking.len() == place_count_of(net),
        token_count(marking, place) == 0 || token_count(marking, place) == 1,
        token_count(marking, place) == 1 ==> 1 <= place <= place_count_of(net),
{
    lemma_reachable_len(net, marking);
}

/// The initial marking is reachable.
pub proof fn lemma_initial_reachable(net: NetModel)
    ensures
        reachable(net, initial_marking(place_count_of(net))),
{
    let start = initial_marking(place_count_of(net));
    assert(run(net, start, Seq::empty()) == start);
}

/// Whatever is attempted in whatever order from a reachable marking leads to
/// a reachable marking.
pub proof fn lemma_run_reachable(net: NetModel, marking: Seq<bool>, ts: Seq<usize>)
    requires
        reachable(net, marking),
    ensures
        reachable(net, run(net, marking, ts)),
    decreases ts.len(),
{
    if ts.len() > 0 {
        lemma_run_reachable(net, marking, ts.drop_last());
        lemma_fired_reachable(net, run(net, marking, ts.drop_last()), ts.last());
    }
}

/// Firing is a function of the transition and the marking alone: the same
/// transition fired in the same marking leaves the same marking, whatever
/// net it belongs to and at whatever position it stands there.
pub proof fn lemma_fired_deterministic(
    net_a: NetModel,
    t_a: int,
    net_b: NetModel,
    t_b: int,
    marking: Seq<bool>,
)
    requires
        0 <= t_a < net_a.len(),
        0 <= t_b < net_b.len(),
        net_a[t_a] == net_b[t_b],
    ensures
        fired(net_a, marking, t_a) == fired(net_b, marking, t_b),
{
}

/// An attempt to fire in a reachable marking leaves a reachable marking.
pub proof fn lemma_fired_reachable(net: NetModel, marking: Seq<bool>, t: usize)
    requires
        reachable(net, marking),
    ensures
        reachable(net, fired(net, marking, t as int)),
{
    let start = initial_marking(place_count_of(net));
    let ts = choose|ts: Seq<usize>| #[trigger] run(net, start, ts) == marking;
    assert(ts.push(t).drop_last() == ts);
    assert(run(net, start, ts.push(t)) == fired(net, marking, t as int));
}

} // verus!
