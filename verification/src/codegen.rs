//! The interface of a net as source text: a trait with one function for each
//! named transition, a type parameter for each place, and a unit struct that
//! implements the trait with default values.

use crate::petrinet::{models_of, NetModel, Petrinet, Places, Transition, TransitionModel};
use vstd::prelude::*;
use vstd::string::{StrSliceExecFns, StringExecFns};

verus! {

/// The texts of `strings`, in order.
pub open spec fn texts(strings: Seq<String>) -> Seq<Seq<char>> {
    Seq::new(strings.len(), |i: int| strings[i]@)
}

/// The text of the decimal digit `d`.
pub open spec fn digit(d: int) -> Seq<char> {
    if d == 0 {
        "0"@
    } else if d == 1 {
        "1"@
    } else if d == 2 {
        "2"@
    } else if d == 3 {
        "3"@
    } else if d == 4 {
        "4"@
    } else if d == 5 {
        "5"@
    } else if d == 6 {
        "6"@
    } else if d == 7 {
        "7"@
    } else if d == 8 {
        "8"@
    } else {
        "9"@
    }
}

/// The decimal text of `n`, without leading zeros.
pub open spec fn decimal(n: nat) -> Seq<char>
    decreases n,
{
    if n < 10 {
        digit(n as int)
    } else {
        decimal(n / 10) + digit((n % 10) as int)
    }
}

/// The decimal text of `n` with at least two digits: one leading zero below 10.
pub open spec fn two_digits(n: nat) -> Seq<char> {
    if n < 10 {
        "0"@ + decimal(n)
    } else {
        decimal(n)
    }
}

/// The name of the type that stands for `place`.
pub open spec fn place_type_of(place: nat) -> Seq<char> {
    "T"@ + two_digits(place)
}

fn digit_text(d: usize) -> (text: &'static str)
    requires
        d < 10,
    ensures
        text@ == digit(d as int),
{
    if d == 0 {
        "0"
    } else if d == 1 {
        "1"
    } else if d == 2 {
        "2"
    } else if d == 3 {
        "3"
    } else if d == 4 {
        "4"
    } else if d == 5 {
        "5"
    } else if d == 6 {
        "6"
    } else if d == 7 {
        "7"
    } else if d == 8 {
        "8"
    } else {
        "9"
    }
}

/// Appends the decimal text of `n` to `out`.
fn push_decimal(out: &mut String, n: usize)
    ensures
        final(out)@ == old(out)@ + decimal(n as nat),
    decreases n,
{
    if n >= 10 {
        push_decimal(out, n / 10);
    }
    out.append(digit_text(n % 10));
    proof {
        if n >= 10 {
            let front = decimal((n / 10) as nat);
            let last = digit((n % 10) as int);
            assert(old(out)@ + front + last == old(out)@ + (front + last));
        }
    }
}

/// Appends `n` to `out`, in two digits at least.
fn push_two_digits(out: &mut String, n: usize)
    ensures
        final(out)@ == old(out)@ + two_digits(n as nat),
{
    if n < 10 {
        out.append("0");
    }
    push_decimal(out, n);
    proof {
        if n < 10 {
            assert(old(out)@ + "0"@ + decimal(n as nat) == old(out)@ + ("0"@ + decimal(n as nat)));
        }
    }
}

/// The name of the type that stands for `place`: `T` and the number of the
/// place, in two digits at least.
pub fn place_type(place: usize) -> (name: String)
    ensures
        name@ == place_type_of(place as nat),
{
    let mut name: String = String::from_str("T");
    push_two_digits(&mut name, place);
    name
}

/// `items` one after the other, with `separator` between each two.
pub open spec fn joined(items: Seq<Seq<char>>, separator: Seq<char>) -> Seq<char>
    decreases items.len(),
{
    if items.len() == 0 {
        Seq::empty()
    } else if items.len() == 1 {
        items[0]
    } else {
        joined(items.drop_last(), separator) + separator + items.last()
    }
}

/// The names of the types that stand for `places`, in order.
pub open spec fn place_types(places: Seq<usize>) -> Seq<Seq<char>> {
    Seq::new(places.len(), |i: int| place_type_of(places[i] as nat))
}

/// The parameter that takes the token of `place`, the consumed place at
/// position `index`: its name and its type.
pub open spec fn argument_of(index: nat, place: nat) -> Seq<char> {
    "a"@ + two_digits(index) + ": "@ + place_type_of(place)
}

/// The parameters that take the tokens of `consume`, in order.
pub open spec fn arguments_of(consume: Seq<usize>) -> Seq<Seq<char>> {
    Seq::new(consume.len(), |i: int| argument_of(i as nat, consume[i] as nat))
}

/// The declaration of the function that stands for `tr` and goes by `name`:
/// a parameter for each consumed place, a tuple of the produced places'
/// types as the result.
pub open spec fn signature_of(name: Seq<char>, tr: TransitionModel) -> Seq<char> {
    "  fn "@ + name + "("@ + joined(arguments_of(tr.consume), ", "@) + ") -> ("@ + joined(
        place_types(tr.produce),
        ", "@,
    ) + ");"@
}

/// The declarations of the first `count` transitions of `net`, a line each.
pub open spec fn signatures_upto(names: Seq<Seq<char>>, net: NetModel, count: nat) -> Seq<char>
    decreases count,
{
    if count == 0 {
        Seq::empty()
    } else {
        signatures_upto(names, net, (count - 1) as nat) + signature_of(
            names[count - 1],
            net[count - 1],
        ) + "\n"@
    }
}

/// The number of transitions that have a name: names without a transition
/// and transitions without a name are passed over.
pub open spec fn named_count(names: Seq<Seq<char>>, net: NetModel) -> nat {
    if names.len() <= net.len() {
        names.len()
    } else {
        net.len()
    }
}

/// The declarations of the named transitions of `net`, a line each.
pub open spec fn signatures_of(names: Seq<Seq<char>>, net: NetModel) -> Seq<char> {
    signatures_upto(names, net, named_count(names, net))
}

proof fn lemma_joined_push(items: Seq<Seq<char>>, separator: Seq<char>, item: Seq<char>)
    ensures
        joined(items.push(item), separator) == if items.len() == 0 {
            item
        } else {
            joined(items, separator) + separator + item
        },
{
    assert(items.push(item).drop_last() == items);
}

/// The names of the types that stand for `places`, with `separator` between
/// each two.
pub fn place_type_list(places: &Places, separator: &str) -> (text: String)
    ensures
        text@ == joined(place_types(places@), separator@),
{
    let mut text: String = String::new();
    let mut i: usize = 0;
    while i < places.len()
        invariant
            i <= places.len(),
            text@ == joined(place_types(places@.take(i as int)), separator@),
        decreases places.len() - i,
    {
        let ghost before = text@;
        let ghost done = place_types(places@.take(i as int));
        if i > 0 {
            text.append(separator);
        }
        text.append("T");
        push_two_digits(&mut text, places[i]);
        proof {
            let item = place_type_of(places@[i as int] as nat);
            assert(place_types(places@.take(i + 1)) == done.push(item));
            lemma_joined_push(done, separator@, item);
            if i > 0 {
                assert(text@ == before + separator@ + item);
            } else {
                assert(text@ == item);
            }
        }
        i += 1;
    }
    proof {
        assert(places@.take(i as int) == places@);
    }
    text
}

/// The parameters that take the tokens of `consume`, with a comma and a
/// blank between each two.
pub fn arguments(consume: &Places) -> (text: String)
    ensures
        text@ == joined(arguments_of(consume@), ", "@),
{
    let mut text: String = String::new();
    let mut i: usize = 0;
    while i < consume.len()
        invariant
            i <= consume.len(),
            text@ == joined(arguments_of(consume@.take(i as int)), ", "@),
        decreases consume.len() - i,
    {
        let ghost before = text@;
        let ghost done = arguments_of(consume@.take(i as int));
        if i > 0 {
            text.append(", ");
        }
        text.append("a");
        push_two_digits(&mut text, i);
        text.append(": ");
        text.append("T");
        push_two_digits(&mut text, consume[i]);
        proof {
            let item = argument_of(i as nat, consume@[i as int] as nat);
            assert(arguments_of(consume@.take(i + 1)) == done.push(item));
            lemma_joined_push(done, ", "@, item);
            let start = if i > 0 {
                before + ", "@
            } else {
                before
            };
            assert(text@ == start + "a"@ + two_digits(i as nat) + ": "@ + "T"@ + two_digits(
                consume@[i as int] as nat,
            ));
            assert(text@ == start + item);
        }
        i += 1;
    }
    proof {
        assert(consume@.take(i as int) == consume@);
    }
    text
}

/// The declaration of the function that stands for `tr` and goes by `name`.
pub fn signature(name: &str, tr: &Transition) -> (text: String)
    ensures
        text@ == signature_of(name@, tr@),
{
    let mut text: String = String::from_str("  fn ");
    text.append(name);
    text.append("(");
    let ins: String = arguments(tr.consume());
    text.append(ins.as_str());
    text.append(") -> (");
    let outs: String = place_type_list(tr.produce(), ", ");
    text.append(outs.as_str());
    text.append(");");
    text
}

/// The declarations of the named transitions of `net`, a line each.
pub fn signatures(names: &Vec<String>, net: &Petrinet) -> (text: String)
    ensures
        text@ == signatures_of(texts(names@), net@),
{
    let transitions: &Vec<Transition> = net.transitions();
    let count: usize = if names.len() <= transitions.len() {
        names.len()
    } else {
        transitions.len()
    };
    let mut text: String = String::new();
    let mut i: usize = 0;
    while i < count
        invariant
            i <= count,
            count <= names.len(),
            count <= transitions.len(),
            models_of(transitions@) == net@,
            text@ == signatures_upto(texts(names@), net@, i as nat),
        decreases count - i,
    {
        let line: String = signature(names[i].as_str(), &transitions[i]);
        text.append(line.as_str());
        text.append("\n");
        i += 1;
    }
    text
}

/// Whether `c` is white space, as `char::is_whitespace` of std tells it.
pub uninterp spec fn is_whitespace(c: char) -> bool;

/// Calls `char::is_whitespace` of std, which tells whether `c` has the
/// Unicode property White_Space. Taken on trust, not proved: that the answer
/// for a character is always the same, which is all that the name
/// `is_whitespace` says. Which characters have the property is not restated.
#[verifier::external_body]
fn char_is_whitespace(c: char) -> (white: bool)
    ensures
        white == is_whitespace(c),
{
    c.is_whitespace()
}

/// What `str::replace` of std makes of `text` when it puts `to` in the place
/// of the matches of `from`.
pub uninterp spec fn replaced(text: Seq<char>, from: Seq<char>, to: Seq<char>) -> Seq<char>;

/// Calls `str::replace` of std, which copies `text` and puts `to` in the
/// place of each match of `from`. Taken on trust, not proved: that the result
/// depends on the three texts alone, which is all that the name `replaced`
/// says. How the matches are found is not restated.
#[verifier::external_body]
fn replace(text: &str, from: &str, to: &str) -> (out: String)
    ensures
        out@ == replaced(text@, from@, to@),
{
    text.replace(from, to)
}

/// `text` without its white space.
pub open spec fn without_whitespace_of(text: Seq<char>) -> Seq<char> {
    text.filter(|c: char| !is_whitespace(c))
}

/// The characters of `text` that `flags` does not mark, in order. The flag of
/// a character stands at the character's position; a character without a
/// flag is not marked.
pub open spec fn unflagged(text: Seq<char>, flags: Seq<bool>) -> Seq<char>
    decreases text.len(),
{
    if text.len() == 0 {
        Seq::empty()
    } else if text.len() <= flags.len() && flags[text.len() - 1] {
        unflagged(text.drop_last(), flags)
    } else {
        unflagged(text.drop_last(), flags).push(text.last())
    }
}

/// Where the flags mark the white space, what they leave is the text without
/// its white space.
proof fn lemma_unflagged_whitespace(text: Seq<char>, flags: Seq<bool>)
    requires
        text.len() <= flags.len(),
        forall|i: int| 0 <= i < text.len() ==> flags[i] == is_whitespace(text[i]),
    ensures
        unflagged(text, flags) == without_whitespace_of(text),
    decreases text.len(),
{
    reveal(Seq::filter);
    if text.len() > 0 {
        lemma_unflagged_whitespace(text.drop_last(), flags);
    }
}

/// The types that get a struct of their own: those of `places`, and the type
/// without a name where there is no place.
pub open spec fn type_list_of(places: Seq<usize>) -> Seq<Seq<char>> {
    if places.len() == 0 {
        seq![Seq::empty()]
    } else {
        place_types(places)
    }
}

/// The unit structs that stand in for `types`: each is the type's name behind
/// an `A`, and has a default value.
pub open spec fn structs_of(types: Seq<Seq<char>>) -> Seq<char>
    decreases types.len(),
{
    if types.len() == 0 {
        Seq::empty()
    } else {
        structs_of(types.drop_last()) + "#[derive(Default)]\n"@ + "struct A"@ + types.last()
            + ";\n"@
    }
}

/// The type arguments of the implementation: the struct of each of `types`,
/// with a comma behind each.
pub open spec fn type_arguments_of(types: Seq<Seq<char>>) -> Seq<char>
    decreases types.len(),
{
    if types.len() == 0 {
        Seq::empty()
    } else {
        type_arguments_of(types.drop_last()) + "A"@ + types.last() + ","@
    }
}

/// `fns` after each of `types`, one after the other, has been replaced by
/// its struct.
pub open spec fn renamed_of(fns: Seq<char>, types: Seq<Seq<char>>) -> Seq<char>
    decreases types.len(),
{
    if types.len() == 0 {
        fns
    } else {
        replaced(renamed_of(fns, types.drop_last()), types.last(), "A"@ + types.last())
    }
}

/// `fns` with a body that returns the default value in the place of each
/// semicolon.
pub open spec fn with_bodies_of(fns: Seq<char>) -> Seq<char> {
    replaced(fns, ";"@, " {\n    Default::default()\n  }"@)
}

/// The whole source text: a comment line, the trait `name` over `parameters`
/// with the declarations `fns`, the structs of `types`, the struct that
/// implements the trait, and the implementation with `bodies`.
pub open spec fn source_of(
    name: Seq<char>,
    parameters: Seq<char>,
    fns: Seq<char>,
    types: Seq<Seq<char>>,
    bodies: Seq<char>,
) -> Seq<char> {
    "// Auto-generated file using petrinet-rs\n"@ + "trait "@ + name + "<"@ + parameters
        + "> {\n"@ + fns + "}\n\n"@ + structs_of(types) + "\nstruct BagOfFuns;\n"@ + "\nimpl "@
        + name + "<"@ + type_arguments_of(types) + "> for BagOfFuns {\n"@ + bodies + "\n"@
        + "}\n"@
}

/// For each character of `name`, whether it is white space.
pub fn whitespace_flags(name: &str) -> (flags: Vec<bool>)
    ensures
        flags@.len() == name@.len(),
        forall|i: int| 0 <= i < name@.len() ==> flags@[i] == is_whitespace(name@[i]),
{
    let len: usize = name.unicode_len();
    let mut flags: Vec<bool> = Vec::new();
    let mut i: usize = 0;
    while i < len
        invariant
            i <= len,
            len == name@.len(),
            flags@.len() == i,
            forall|k: int| 0 <= k < i ==> flags@[k] == is_whitespace(name@[k]),
        decreases len - i,
    {
        let white: bool = char_is_whitespace(name.get_char(i));
        flags.push(white);
        i += 1;
    }
    flags
}

/// The characters of `name` that `flags` does not mark, in order.
pub fn without_flagged(name: &str, flags: &Vec<bool>) -> (text: String)
    ensures
        text@ == unflagged(name@, flags@),
{
    let len: usize = name.unicode_len();
    let mut text: String = String::new();
    let mut i: usize = 0;
    while i < len
        invariant
            i <= len,
            len == name@.len(),
            text@ == unflagged(name@.take(i as int), flags@),
        decreases len - i,
    {
        proof {
            assert(name@.take(i + 1).drop_last() == name@.take(i as int));
        }
        if !(i < flags.len() && flags[i]) {
            text.append(name.substring_char(i, i + 1));
            proof {
                assert(name@.subrange(i as int, i + 1) == seq![name@[i as int]]);
                assert(text@ == unflagged(name@.take(i as int), flags@).push(name@[i as int]));
            }
        }
        i += 1;
    }
    proof {
        assert(name@.take(i as int) == name@);
    }
    text
}

/// `name` without its white space.
pub fn without_whitespace(name: &str) -> (text: String)
    ensures
        text@ == without_whitespace_of(name@),
{
    let flags: Vec<bool> = whitespace_flags(name);
    proof {
        lemma_unflagged_whitespace(name@, flags@);
    }
    without_flagged(name, &flags)
}

/// The types that get a struct of their own.
pub fn type_list(places: &Places) -> (types: Vec<String>)
    ensures
        texts(types@) == type_list_of(places@),
{
    let mut types: Vec<String> = Vec::new();
    if places.len() == 0 {
        types.push(String::new());
        proof {
            assert(texts(types@) == seq![Seq::<char>::empty()]);
        }
        return types;
    }
    let mut i: usize = 0;
    while i < places.len()
        invariant
            i <= places.len(),
            texts(types@) == place_types(places@.take(i as int)),
        decreases places.len() - i,
    {
        let ghost done = texts(types@);
        let name: String = place_type(places[i]);
        types.push(name);
        proof {
            assert(texts(types@) == done.push(place_type_of(places@[i as int] as nat)));
            assert(place_types(places@.take(i + 1)) == done.push(
                place_type_of(places@[i as int] as nat),
            ));
        }
        i += 1;
    }
    proof {
        assert(places@.take(i as int) == places@);
    }
    types
}

/// The unit structs that stand in for `types`.
pub fn structs(types: &Vec<String>) -> (text: String)
    ensures
        text@ == structs_of(texts(types@)),
{
    let mut text: String = String::new();
    let mut i: usize = 0;
    while i < types.len()
        invariant
            i <= types.len(),
            text@ == structs_of(texts(types@).take(i as int)),
        decreases types.len() - i,
    {
        proof {
            assert(texts(types@).take(i + 1).drop_last() == texts(types@).take(i as int));
        }
        text.append("#[derive(Default)]\n");
        text.append("struct A");
        text.append(types[i].as_str());
        text.append(";\n");
        i += 1;
    }
    proof {
        assert(texts(types@).take(i as int) == texts(types@));
    }
    text
}

/// The type arguments of the implementation.
pub fn type_arguments(types: &Vec<String>) -> (text: String)
    ensures
        text@ == type_arguments_of(texts(types@)),
{
    let mut text: String = String::new();
    let mut i: usize = 0;
    while i < types.len()
        invariant
            i <= types.len(),
            text@ == type_arguments_of(texts(types@).take(i as int)),
        decreases types.len() - i,
    {
        proof {
            assert(texts(types@).take(i + 1).drop_last() == texts(types@).take(i as int));
        }
        text.append("A");
        text.append(types[i].as_str());
        text.append(",");
        i += 1;
    }
    proof {
        assert(texts(types@).take(i as int) == texts(types@));
    }
    text
}

/// Replaces each of `types` in `fns` by its struct, one type after the other.
pub fn renamed(fns: &str, types: &Vec<String>) -> (text: String)
    ensures
        text@ == renamed_of(fns@, texts(types@)),
{
    let mut text: String = String::from_str(fns);
    let mut i: usize = 0;
    while i < types.len()
        invariant
            i <= types.len(),
            text@ == renamed_of(fns@, texts(types@).take(i as int)),
        decreases types.len() - i,
    {
        proof {
            assert(texts(types@).take(i + 1).drop_last() == texts(types@).take(i as int));
        }
        let mut to: String = String::from_str("A");
        to.append(types[i].as_str());
        text = replace(text.as_str(), types[i].as_str(), to.as_str());
        i += 1;
    }
    proof {
        assert(texts(types@).take(i as int) == texts(types@));
    }
    text
}

/// Puts a body that returns the default value in the place of each semicolon.
pub fn with_bodies(fns: &str) -> (text: String)
    ensures
        text@ == with_bodies_of(fns@),
{
    replace(fns, ";", " {\n    Default::default()\n  }")
}

/// Puts the source text together from its parts.
pub fn source(
    name: &str,
    parameters: &str,
    fns: &str,
    types: &Vec<String>,
    bodies: &str,
) -> (text: String)
    ensures
        text@ == source_of(name@, parameters@, fns@, texts(types@), bodies@),
{
    let mut text: String = String::from_str("// Auto-generated file using petrinet-rs\n");
    text.append("trait ");
    text.append(name);
    text.append("<");
    text.append(parameters);
    text.append("> {\n");
    text.append(fns);
    text.append("}\n\n");
    let defs: String = structs(types);
    text.append(defs.as_str());
    text.append("\nstruct BagOfFuns;\n");
    text.append("\nimpl ");
    text.append(name);
    text.append("<");
    let args: String = type_arguments(types);
    text.append(args.as_str());
    text.append("> for BagOfFuns {\n");
    text.append(bodies);
    text.append("\n");
    text.append("}\n");
    text
}

} // verus!
