//! The decoder: from the flat encoding to the transitions of a net, and what
//! the two have to do with each other.

use crate::partition::{contiguous_from_one, names_place, ValidPartition};
use crate::petrinet::{
    lists, models_of, net_mentions, NetModel, Petrinet, Places, Transition, TransitionModel,
};
use vstd::prelude::*;

verus! {

/// What the decoder holds between two values: the group it is filling, the
/// places of the transition that is open, and the transitions that are closed.
pub struct DecodeState {
    pub consuming: bool,
    pub consume: Seq<usize>,
    pub produce: Seq<usize>,
    pub closed: NetModel,
}

/// The decoder before the first value: it fills a group of consumed places.
pub open spec fn decode_start() -> DecodeState {
    DecodeState {
        consuming: true,
        consume: Seq::empty(),
        produce: Seq::empty(),
        closed: Seq::empty(),
    }
}

/// The decoder after one more value. A place joins the group that is being
/// filled. A separator ends the group: behind the consumed places come the
/// produced ones, and behind those the transition is closed.
pub open spec fn decode_step(state: DecodeState, value: usize) -> DecodeState {
    if value != 0 {
        if state.consuming {
            DecodeState { consume: state.consume.push(value), ..state }
        } else {
            DecodeState { produce: state.produce.push(value), ..state }
        }
    } else if state.consuming {
        DecodeState { consuming: false, ..state }
    } else {
        DecodeState {
            consuming: true,
            consume: Seq::empty(),
            produce: Seq::empty(),
            closed: state.closed.push(
                TransitionModel { consume: state.consume, produce: state.produce },
            ),
        }
    }
}

/// The decoder that was in `state`, after `values`.
pub open spec fn decode_from(state: DecodeState, values: Seq<usize>) -> DecodeState
    decreases values.len(),
{
    if values.len() == 0 {
        state
    } else {
        decode_step(decode_from(state, values.drop_last()), values.last())
    }
}

/// The decoder after all of `values`.
pub open spec fn decode_state(values: Seq<usize>) -> DecodeState {
    decode_from(decode_start(), values)
}

/// The transitions that `values` encodes. Groups that no separator closes
/// into a transition are left out.
pub open spec fn decoded(values: Seq<usize>) -> NetModel {
    decode_state(values).closed
}

/// Decodes a flat sequence into its transitions, in order.
pub fn decode(values: &Vec<usize>) -> (transitions: Vec<Transition>)
    ensures
        models_of(transitions@) == decoded(values@),
{
    let mut consuming: bool = true;
    let mut c: Places = Vec::new();
    let mut p: Places = Vec::new();
    let mut tr: Vec<Transition> = Vec::new();
    let mut i: usize = 0;
    while i < values.len()
        invariant
            i <= values.len(),
            consuming == decode_state(values@.take(i as int)).consuming,
            c@ == decode_state(values@.take(i as int)).consume,
            p@ == decode_state(values@.take(i as int)).produce,
            models_of(tr@) == decode_state(values@.take(i as int)).closed,
        decreases values.len() - i,
    {
        let value: usize = values[i];
        proof {
            assert(values@.take(i + 1).drop_last() == values@.take(i as int));
        }
        if value != 0 {
            if consuming {
                c.push(value);
            } else {
                p.push(value);
            }
        } else if consuming {
            consuming = false;
        } else {
            let ghost closed = models_of(tr@);
            let ghost last = TransitionModel { consume: c@, produce: p@ };
            tr.push(Transition::new(c, p));
            proof {
                assert(models_of(tr@) == closed.push(last));
            }
            c = Vec::new();
            p = Vec::new();
            consuming = true;
        }
        i += 1;
    }
    proof {
        assert(values@.take(i as int) == values@);
    }
    tr
}

impl vstd::std_specs::convert::FromSpecImpl<ValidPartition> for Petrinet {
    open spec fn obeys_from_spec() -> bool {
        false
    }

    open spec fn from_spec(partition: ValidPartition) -> Self {
        arbitrary()
    }
}

impl From<ValidPartition> for Petrinet {
    /// The net that a checked partition encodes.
    fn from(partition: ValidPartition) -> (net: Self)
        ensures
            net@ == decoded(partition@),
            forall|p: int, q: int|
                #![trigger net_mentions(net@, p), names_place(partition@, q)]
                net_mentions(net@, p) && 1 <= q <= p ==> names_place(partition@, q),
    {
        let values: &Vec<usize> = partition.values();
        proof {
            lemma_decoded_numbering(values@);
        }
        Petrinet::new(decode(values))
    }
}

/// The flat encoding of one transition: its consumed places, a separator,
/// its produced places, a separator.
pub open spec fn encoded_transition(tr: TransitionModel) -> Seq<usize> {
    tr.consume.push(0) + tr.produce.push(0)
}

/// The flat encoding of a net: the encodings of its transitions, in order.
pub open spec fn encoded(net: NetModel) -> Seq<usize>
    decreases net.len(),
{
    if net.len() == 0 {
        Seq::empty()
    } else {
        encoded(net.drop_last()) + encoded_transition(net.last())
    }
}

/// The number of separators in `values`.
pub open spec fn separators(values: Seq<usize>) -> nat
    decreases values.len(),
{
    if values.len() == 0 {
        0
    } else if values.last() == 0 {
        separators(values.drop_last()) + 1
    } else {
        separators(values.drop_last())
    }
}

/// What stands in `values` behind its last closed transition: the groups
/// that the decoder leaves out.
pub open spec fn open_tail(values: Seq<usize>) -> Seq<usize> {
    let state = decode_state(values);
    if state.consuming {
        state.consume
    } else {
        state.consume.push(0) + state.produce
    }
}

/// The decoder between two transitions, with `closed` behind it.
spec fn between_transitions(closed: NetModel) -> DecodeState {
    DecodeState { consuming: true, consume: Seq::empty(), produce: Seq::empty(), closed }
}

/// No separator stands among the places that `state` holds, and the group of
/// produced places is empty while the consumed ones are read.
spec fn tidy(state: DecodeState) -> bool {
    &&& !lists(state.consume, 0)
    &&& !lists(state.produce, 0)
    &&& !net_mentions(state.closed, 0)
    &&& state.consuming ==> state.produce.len() == 0
}

proof fn lemma_lists_push(xs: Seq<usize>, v: usize, place: int)
    ensures
        lists(xs.push(v), place) <==> (lists(xs, place) || v == place),
{
    let ys = xs.push(v);
    if lists(xs, place) {
        let k = choose|k: int| 0 <= k < xs.len() && xs[k] == place;
        assert(ys[k] == place);
    }
    if v == place {
        assert(ys[xs.len() as int] == place);
    }
    if lists(ys, place) {
        let k = choose|k: int| 0 <= k < ys.len() && ys[k] == place;
        if k < xs.len() {
            assert(xs[k] == place);
        }
    }
}

proof fn lemma_lists_concat(xs: Seq<usize>, ys: Seq<usize>, place: int)
    ensures
        lists(xs + ys, place) <==> (lists(xs, place) || lists(ys, place)),
{
    let zs = xs + ys;
    if lists(xs, place) {
        let k = choose|k: int| 0 <= k < xs.len() && xs[k] == place;
        assert(zs[k] == place);
    }
    if lists(ys, place) {
        let k = choose|k: int| 0 <= k < ys.len() && ys[k] == place;
        assert(zs[xs.len() + k] == place);
    }
    if lists(zs, place) {
        let k = choose|k: int| 0 <= k < zs.len() && zs[k] == place;
        if k < xs.len() {
            assert(xs[k] == place);
        } else {
            assert(ys[k - xs.len()] == place);
        }
    }
}

proof fn lemma_net_mentions_push(net: NetModel, tr: TransitionModel, place: int)
    ensures
        net_mentions(net.push(tr), place) <==> (net_mentions(net, place) || tr.mentions(place)),
{
    let more = net.push(tr);
    if net_mentions(net, place) {
        let t = choose|t: int| 0 <= t < net.len() && #[trigger] net[t].mentions(place);
        assert(more[t].mentions(place));
    }
    if tr.mentions(place) {
        assert(more[net.len() as int].mentions(place));
    }
    if net_mentions(more, place) {
        let t = choose|t: int| 0 <= t < more.len() && #[trigger] more[t].mentions(place);
        if t < net.len() {
            assert(net[t].mentions(place));
        }
    }
}

proof fn lemma_separators_concat(xs: Seq<usize>, ys: Seq<usize>)
    ensures
        separators(xs + ys) == separators(xs) + separators(ys),
    decreases ys.len(),
{
    if ys.len() == 0 {
        assert(xs + ys == xs);
    } else {
        lemma_separators_concat(xs, ys.drop_last());
        assert((xs + ys).drop_last() == xs + ys.drop_last());
    }
}

proof fn lemma_no_separator(xs: Seq<usize>)
    requires
        !lists(xs, 0),
    ensures
        separators(xs) == 0,
    decreases xs.len(),
{
    if xs.len() > 0 {
        let front = xs.drop_last();
        assert(xs[xs.len() - 1] != 0);
        if lists(front, 0) {
            let k = choose|k: int| 0 <= k < front.len() && front[k] == 0;
            assert(xs[k] == 0);
        }
        lemma_no_separator(front);
    }
}

/// Decoding may stop anywhere and go on from the state it reached.
pub proof fn lemma_decode_from_concat(state: DecodeState, xs: Seq<usize>, ys: Seq<usize>)
    ensures
        decode_from(state, xs + ys) == decode_from(decode_from(state, xs), ys),
    decreases ys.len(),
{
    if ys.len() == 0 {
        assert(xs + ys == xs);
    } else {
        lemma_decode_from_concat(state, xs, ys.drop_last());
        assert((xs + ys).drop_last() == xs + ys.drop_last());
    }
}

/// The decoder keeps what `tidy` says.
proof fn lemma_step_tidy(state: DecodeState, value: usize)
    requires
        tidy(state),
    ensures
        tidy(decode_step(state, value)),
{
    let next = decode_step(state, value);
    lemma_lists_push(state.consume, value, 0);
    lemma_lists_push(state.produce, value, 0);
    lemma_net_mentions_push(
        state.closed,
        TransitionModel { consume: state.consume, produce: state.produce },
        0,
    );
}

proof fn lemma_decode_state_tidy(values: Seq<usize>)
    ensures
        tidy(decode_state(values)),
    decreases values.len(),
{
    if values.len() > 0 {
        lemma_decode_state_tidy(values.drop_last());
        lemma_step_tidy(decode_state(values.drop_last()), values.last());
    }
}

/// Places without a separator among them all join the group that is being filled.
proof fn lemma_decode_group(state: DecodeState, places: Seq<usize>)
    requires
        !lists(places, 0),
    ensures
        decode_from(state, places) == if state.consuming {
            DecodeState { consume: state.consume + places, ..state }
        } else {
            DecodeState { produce: state.produce + places, ..state }
        },
    decreases places.len(),
{
    let end = decode_from(state, places);
    if places.len() == 0 {
        assert(state.consume + places == state.consume);
        assert(state.produce + places == state.produce);
    } else {
        let front = places.drop_last();
        assert(places[places.len() - 1] != 0);
        if lists(front, 0) {
            let k = choose|k: int| 0 <= k < front.len() && front[k] == 0;
            assert(places[k] == 0);
        }
        lemma_decode_group(state, front);
        assert((state.consume + front).push(places.last()) == state.consume + places);
        assert((state.produce + front).push(places.last()) == state.produce + places);
    }
}

/// Between two transitions, the encoding of a transition decodes to it.
proof fn lemma_decode_transition(closed: NetModel, tr: TransitionModel)
    requires
        !tr.mentions(0),
    ensures
        decode_from(between_transitions(closed), encoded_transition(tr)) == between_transitions(
            closed.push(tr),
        ),
{
    let start = between_transitions(closed);
    let first = tr.consume.push(0);
    let second = tr.produce.push(0);
    lemma_decode_from_concat(start, first, second);
    lemma_decode_group(start, tr.consume);
    assert(first.drop_last() == tr.consume);
    assert(Seq::<usize>::empty() + tr.consume == tr.consume);
    let middle = decode_from(start, first);
    assert(middle == DecodeState { consuming: false, consume: tr.consume, ..start });
    lemma_decode_group(middle, tr.produce);
    assert(second.drop_last() == tr.produce);
    assert(Seq::<usize>::empty() + tr.produce == tr.produce);
}

proof fn lemma_decode_encoded_state(net: NetModel)
    requires
        !net_mentions(net, 0),
    ensures
        decode_state(encoded(net)) == between_transitions(net),
    decreases net.len(),
{
    if net.len() == 0 {
        assert(net == Seq::<TransitionModel>::empty());
    } else {
        let front = net.drop_last();
        let last = net.last();
        assert(front.push(last) == net);
        lemma_net_mentions_push(front, last, 0);
        lemma_decode_encoded_state(front);
        lemma_decode_from_concat(decode_start(), encoded(front), encoded_transition(last));
        lemma_decode_transition(front, last);
    }
}

/// While the consumed places are read, fewer than two separators close no transition.
proof fn lemma_open_tail_closes_nothing(state: DecodeState, tail: Seq<usize>)
    requires
        state.consuming,
        separators(tail) <= 1,
    ensures
        decode_from(state, tail).closed == state.closed,
        decode_from(state, tail).consuming == (separators(tail) == 0),
    decreases tail.len(),
{
    if tail.len() > 0 {
        lemma_open_tail_closes_nothing(state, tail.drop_last());
    }
}

/// Decoding undoes encoding, and leaves out what follows the last closed
/// transition: the encoding of a net without a place 0, followed by values
/// with at most one separator among them, decodes to that net.
pub proof fn lemma_decode_encoded(net: NetModel, tail: Seq<usize>)
    requires
        !net_mentions(net, 0),
        separators(tail) <= 1,
    ensures
        decoded(encoded(net) + tail) == net,
{
    lemma_decode_encoded_state(net);
    lemma_decode_from_concat(decode_start(), encoded(net), tail);
    lemma_open_tail_closes_nothing(between_transitions(net), tail);
}

/// Encoding undoes decoding, up to what the decoder leaves out: every flat
/// sequence is the encoding of the net it decodes to, followed by its open
/// tail, and the open tail holds at most one separator.
pub proof fn lemma_encoded_decoded(values: Seq<usize>)
    ensures
        values == encoded(decoded(values)) + open_tail(values),
        separators(open_tail(values)) <= 1,
        !net_mentions(decoded(values), 0),
    decreases values.len(),
{
    lemma_decode_state_tidy(values);
    let state = decode_state(values);
    if values.len() == 0 {
        assert(values == encoded(decoded(values)) + open_tail(values));
    } else {
        let front = values.drop_last();
        let value = values.last();
        let before = decode_state(front);
        lemma_encoded_decoded(front);
        lemma_decode_state_tidy(front);
        assert(values == front.push(value));
        if value != 0 || before.consuming {
            assert(open_tail(values) == open_tail(front).push(value));
            assert(values == encoded(decoded(values)) + open_tail(values));
        } else {
            let tr = TransitionModel { consume: before.consume, produce: before.produce };
            assert(state.closed.drop_last() == before.closed);
            assert(state.closed.last() == tr);
            assert(encoded(state.closed) == encoded(before.closed) + encoded_transition(tr));
            assert(encoded_transition(tr) == open_tail(front).push(0));
            assert(open_tail(values) == Seq::<usize>::empty());
            assert(values == encoded(decoded(values)) + open_tail(values));
        }
    }
    if state.consuming {
        lemma_no_separator(state.consume);
    } else {
        lemma_no_separator(state.consume);
        lemma_no_separator(state.produce);
        lemma_separators_concat(state.consume.push(0), state.produce);
        assert(state.consume.push(0).drop_last() == state.consume);
    }
}

/// The encoding of a net without a place 0 names the places of the net, and
/// no others.
proof fn lemma_encoded_names(net: NetModel, place: int)
    requires
        !net_mentions(net, 0),
    ensures
        names_place(encoded(net), place) <==> net_mentions(net, place),
    decreases net.len(),
{
    if net.len() > 0 {
        let front = net.drop_last();
        let last = net.last();
        assert(front.push(last) == net);
        lemma_net_mentions_push(front, last, 0);
        lemma_net_mentions_push(front, last, place);
        lemma_encoded_names(front, place);
        lemma_lists_concat(encoded(front), encoded_transition(last), place);
        lemma_lists_concat(last.consume.push(0), last.produce.push(0), place);
        lemma_lists_push(last.consume, 0, place);
        lemma_lists_push(last.produce, 0, place);
    }
}

/// Decoding loses no place and invents none: the places that a flat sequence
/// names are those of the net it decodes to and those of its open tail.
pub proof fn lemma_decoded_places(values: Seq<usize>, place: int)
    ensures
        names_place(values, place) <==> (net_mentions(decoded(values), place) || names_place(
            open_tail(values),
            place,
        )),
{
    lemma_encoded_decoded(values);
    lemma_encoded_names(decoded(values), place);
    lemma_lists_concat(encoded(decoded(values)), open_tail(values), place);
}

/// The net that a contiguously numbered sequence decodes to uses places of
/// that numbering only: with a place of the net, the sequence names every
/// place from 1 up to it.
pub proof fn lemma_decoded_numbering(values: Seq<usize>)
    requires
        contiguous_from_one(values),
    ensures
        forall|p: int, q: int|
            #![trigger net_mentions(decoded(values), p), names_place(values, q)]
            net_mentions(decoded(values), p) && 1 <= q <= p ==> names_place(values, q),
{
    assert forall|p: int, q: int|
        #![trigger net_mentions(decoded(values), p), names_place(values, q)]
        net_mentions(decoded(values), p) && 1 <= q <= p implies names_place(values, q) by {
        lemma_decoded_places(values, p);
        assert(names_place(values, p));
    }
}

/// The places of `net` are numbered without a gap from 1 on.
pub open spec fn places_contiguous(net: NetModel) -> bool {
    forall|p: int, q: int|
        #![trigger net_mentions(net, p), net_mentions(net, q)]
        1 <= q < p && net_mentions(net, p) ==> net_mentions(net, q)
}

/// `place` lies above every place of `net`.
pub open spec fn above_net(net: NetModel, place: int) -> bool {
    forall|p: int| net_mentions(net, p) ==> p < place
}

/// Each place of the open tail of `values` is a place of the decoded net too,
/// or lies above all of them: leaving out the tail opens no gap.
pub open spec fn tail_opens_no_gap(values: Seq<usize>) -> bool {
    forall|q: int| #[trigger]
        names_place(open_tail(values), q) ==> net_mentions(decoded(values), q) || above_net(
            decoded(values),
            q,
        )
}

/// Of a contiguously numbered sequence, the decoded net has its own places
/// numbered without a gap from 1 on exactly where leaving out the open tail
/// opens no gap.
pub proof fn lemma_decoded_contiguous(values: Seq<usize>)
    requires
        contiguous_from_one(values),
    ensures
        places_contiguous(decoded(values)) <==> tail_opens_no_gap(values),
{
    let net = decoded(values);
    if tail_opens_no_gap(values) {
        assert forall|p: int, q: int|
            #![trigger net_mentions(net, p), net_mentions(net, q)]
            1 <= q < p && net_mentions(net, p) implies net_mentions(net, q) by {
            lemma_decoded_places(values, p);
            lemma_decoded_places(values, q);
            assert(names_place(values, p));
            assert(names_place(values, q));
            if !net_mentions(net, q) {
                assert(names_place(open_tail(values), q));
                assert(above_net(net, q));
            }
        }
    }
    if places_contiguous(net) {
        assert forall|q: int| #[trigger]
            names_place(open_tail(values), q) implies net_mentions(net, q) || above_net(
            net,
            q,
        ) by {
            if !net_mentions(net, q) {
                assert forall|p: int| net_mentions(net, p) implies p < q by {
                    if p > q {
                        assert(net_mentions(net, q));
                    }
                }
            }
        }
    }
}

} // verus!
