//! Walking a JSON document by selector. A name or key steps into an object
//! member, an ordinal into an array element, and `[n]` into the children of
//! either: array elements or object member values, in document order.
use vstd::prelude::*;

use crate::json::{
    distinct_names, lemma_array_view, lemma_object_view, items_view, members_view, Json,
    JsonValue,
};
use crate::selector::{steps_of, Segment, Step};

verus! {

/// The first member at or after `i` named `name`, or the number of members.
pub open spec fn member_at(members: Seq<(Seq<char>, Json)>, name: Seq<char>, i: int) -> int
    decreases members.len() - i,
{
    if i >= members.len() || members[i].0 == name {
        i
    } else {
        member_at(members, name, i + 1)
    }
}

/// The position of the first member named `name`, or the number of members.
pub open spec fn member_of(members: Seq<(Seq<char>, Json)>, name: Seq<char>) -> int {
    member_at(members, name, 0)
}

/// The children that `[n]` steps into: array elements, or object member
/// values, in document order; nothing for a scalar.
pub open spec fn children(value: Json) -> Seq<Json> {
    match value {
        Json::Array(items) => items,
        Json::Object(members) => Seq::new(members.len(), |k: int| members[k].1),
        _ => Seq::empty(),
    }
}

/// The first value that `steps` resolve to in `value`, or `None`. At `[n]`
/// the first child under which the rest resolves wins.
pub open spec fn found(value: Json, steps: Seq<Step>) -> Option<Json>
    decreases steps.len(), 1int, 0int,
{
    if steps.len() == 0 {
        Some(value)
    } else {
        let rest = steps.drop_first();
        match steps[0] {
            Step::Name(name) => found_member(value, name, rest),
            Step::Key(name) => found_member(value, name, rest),
            Step::Number(index) => match value {
                Json::Array(items) => if index < items.len() {
                    found(items[index as int], rest)
                } else {
                    None
                },
                _ => None,
            },
            Step::Any => first_found(children(value), rest, 0),
        }
    }
}

/// What the rest resolves to under the member `name` of an object.
pub open spec fn found_member(value: Json, name: Seq<char>, rest: Seq<Step>) -> Option<Json>
    decreases rest.len() + 1, 0int, 0int,
{
    match value {
        Json::Object(members) => {
            let k = member_of(members, name);
            if 0 <= k < members.len() {
                found(members[k].1, rest)
            } else {
                None
            }
        },
        _ => None,
    }
}

/// The first of `children[i..]` under which `rest` resolves, and what it
/// resolves to.
pub open spec fn first_found(children: Seq<Json>, rest: Seq<Step>, i: int) -> Option<Json>
    decreases rest.len() + 1, 0int, children.len() - i,
{
    if i < 0 || i >= children.len() {
        None
    } else {
        match found(children[i], rest) {
            Some(hit) => Some(hit),
            None => first_found(children, rest, i + 1),
        }
    }
}

/// How many places writing by `steps` fills in `value`: every place the
/// selector resolves to, where a last name or key also counts in an object
/// that lacks it.
pub open spec fn places(value: Json, steps: Seq<Step>) -> nat
    decreases steps.len(), 1int, 0int,
{
    if steps.len() == 0 {
        1
    } else {
        let rest = steps.drop_first();
        match steps[0] {
            Step::Name(name) => member_places(value, name, rest),
            Step::Key(name) => member_places(value, name, rest),
            Step::Number(index) => match value {
                Json::Array(items) => if index < items.len() {
                    places(items[index as int], rest)
                } else {
                    0
                },
                _ => 0,
            },
            Step::Any => places_from(children(value), rest, 0),
        }
    }
}

/// The places under the member `name` of an object.
pub open spec fn member_places(value: Json, name: Seq<char>, rest: Seq<Step>) -> nat
    decreases rest.len() + 1, 0int, 0int,
{
    match value {
        Json::Object(members) => {
            let k = member_of(members, name);
            if 0 <= k < members.len() {
                places(members[k].1, rest)
            } else if rest.len() == 0 {
                1
            } else {
                0
            }
        },
        _ => 0,
    }
}

/// The places under `children[i..]`, together.
pub open spec fn places_from(children: Seq<Json>, rest: Seq<Step>, i: int) -> nat
    decreases rest.len() + 1, 0int, children.len() - i,
{
    if i < 0 || i >= children.len() {
        0
    } else {
        places(children[i], rest) + places_from(children, rest, i + 1)
    }
}

/// `value` with `replacement` written at every place `steps` resolve to; a
/// last name or key is added to an object that lacks it; everything else is
/// left as it was.
pub open spec fn put(value: Json, steps: Seq<Step>, replacement: Json) -> Json
    decreases steps.len(), 1int,
{
    if steps.len() == 0 {
        replacement
    } else {
        let rest = steps.drop_first();
        match steps[0] {
            Step::Name(name) => put_member(value, name, rest, replacement),
            Step::Key(name) => put_member(value, name, rest, replacement),
            Step::Number(index) => match value {
                Json::Array(items) => if index < items.len() {
                    Json::Array(
                        items.update(index as int, put(items[index as int], rest, replacement)),
                    )
                } else {
                    value
                },
                _ => value,
            },
            Step::Any => match value {
                Json::Array(items) => Json::Array(
                    Seq::new(items.len(), |x: int| put(items[x], rest, replacement)),
                ),
                Json::Object(members) => Json::Object(
                    Seq::new(
                        members.len(),
                        |x: int| (members[x].0, put(members[x].1, rest, replacement)),
                    ),
                ),
                _ => value,
            },
        }
    }
}

/// Writing under the member `name` of an object: into it where it exists,
/// as a new last member where it does not and the selector ends here.
pub open spec fn put_member(value: Json, name: Seq<char>, rest: Seq<Step>, replacement: Json) -> Json
    decreases rest.len() + 1, 0int,
{
    match value {
        Json::Object(members) => {
            let k = member_of(members, name);
            if 0 <= k < members.len() {
                Json::Object(
                    members.update(k, (members[k].0, put(members[k].1, rest, replacement))),
                )
            } else if rest.len() == 0 {
                Json::Object(members.push((name, replacement)))
            } else {
                value
            }
        },
        _ => value,
    }
}

/// A count as `usize` holds it: saturated at the largest `usize`.
pub open spec fn capped(n: nat) -> usize {
    if n <= usize::MAX {
        n as usize
    } else {
        usize::MAX
    }
}

/// The steps of `segments` from position `at` on.
pub open spec fn steps_after(segments: Seq<Segment>, at: int) -> Seq<Step> {
    steps_of(segments).skip(at)
}

proof fn lemma_steps_after(segments: Seq<Segment>, at: int)
    requires
        0 <= at < segments.len(),
    ensures
        steps_after(segments, at).len() > 0,
        steps_after(segments, at)[0] == segments[at]@,
        steps_after(segments, at).drop_first() == steps_after(segments, at + 1),
{
    assert(steps_after(segments, at).drop_first() =~= steps_after(segments, at + 1));
}

proof fn lemma_member_at_bounds(members: Seq<(Seq<char>, Json)>, name: Seq<char>, i: int)
    requires
        0 <= i <= members.len(),
    ensures
        i <= member_at(members, name, i) <= members.len(),
    decreases members.len() - i,
{
    if !(i >= members.len() || members[i].0 == name) {
        lemma_member_at_bounds(members, name, i + 1);
    }
}

/// The position of the first member named `name`, or the number of members.
fn find_member(members: &Vec<(String, JsonValue)>, name: &String) -> (k: usize)
    ensures
        k == member_of(members_view(members@), name@),
        k <= members@.len(),
{
    let ghost view = members_view(members@);
    let mut k: usize = 0;
    while k < members.len()
        invariant
            view == members_view(members@),
            k <= members@.len(),
            member_of(view, name@) == member_at(view, name@, k as int),
        decreases members.len() - k,
    {
        if members[k].0 == *name {
            return k;
        }
        k = k + 1;
    }
    k
}

/// The first value the selector resolves to, or `None`. At `[n]` the first
/// child under which the rest of the selector resolves wins.
pub fn read<'a>(value: &'a JsonValue, segments: &[Segment]) -> (r: Option<&'a JsonValue>)
    ensures
        match r {
            Some(hit) => found(value@, steps_of(segments@)) == Some(hit@),
            None => found(value@, steps_of(segments@)) is None,
        },
{
    assert(steps_after(segments@, 0) =~= steps_of(segments@));
    read_at(value, segments, 0)
}

fn read_at<'a>(value: &'a JsonValue, segments: &[Segment], at: usize) -> (r: Option<&'a JsonValue>)
    requires
        at <= segments.len(),
    ensures
        match r {
            Some(hit) => found(value@, steps_after(segments@, at as int)) == Some(hit@),
            None => found(value@, steps_after(segments@, at as int)) is None,
        },
    decreases segments@.len() - at, 1int,
{
    if at == segments.len() {
        assert(steps_after(segments@, at as int).len() == 0);
        return Some(value);
    }
    proof {
        lemma_steps_after(segments@, at as int);
    }
    let ghost rest = steps_after(segments@, at + 1);
    match &segments[at] {
        Segment::Name(name) => read_member(value, name, segments, at),
        Segment::Key(name) => read_member(value, name, segments, at),
        Segment::Number(index) => match value {
            JsonValue::Array(items) => {
                proof {
                    lemma_array_view(*items);
                }
                if *index < items.len() {
                    read_at(&items[*index], segments, at + 1)
                } else {
                    assert(found(value@, steps_after(segments@, at as int)) is None);
                    None
                }
            },
            _ => {
                assert(found(value@, steps_after(segments@, at as int)) is None);
                None
            },
        },
        Segment::Any => match value {
            JsonValue::Array(items) => {
                proof {
                    lemma_array_view(*items);
                }
                let ghost cs = items_view(items@);
                assert(found(value@, steps_after(segments@, at as int)) == first_found(cs, rest, 0));
                let mut j: usize = 0;
                while j < items.len()
                    invariant
                        at < segments.len(),
                        found(value@, steps_after(segments@, at as int)) == first_found(cs, rest, 0),
                        rest == steps_after(segments@, at + 1),
                        cs == items_view(items@),
                        j <= items@.len(),
                        first_found(cs, rest, 0) == first_found(cs, rest, j as int),
                    decreases items.len() - j,
                {
                    match read_at(&items[j], segments, at + 1) {
                        Some(hit) => {
                            return Some(hit);
                        },
                        None => {},
                    }
                    j = j + 1;
                }
                None
            },
            JsonValue::Object(members) => {
                proof {
                    lemma_object_view(*members);
                }
                let ghost cs = children(value@);
                assert(found(value@, steps_after(segments@, at as int)) == first_found(cs, rest, 0));
                let mut j: usize = 0;
                while j < members.len()
                    invariant
                        at < segments.len(),
                        found(value@, steps_after(segments@, at as int)) == first_found(cs, rest, 0),
                        rest == steps_after(segments@, at + 1),
                        cs == children(JsonValue::Object(*members)@),
                        JsonValue::Object(*members)@ == Json::Object(members_view(members@)),
                        j <= members@.len(),
                        first_found(cs, rest, 0) == first_found(cs, rest, j as int),
                    decreases members.len() - j,
                {
                    assert(cs[j as int] == members@[j as int].1@);
                    match read_at(&members[j].1, segments, at + 1) {
                        Some(hit) => {
                            return Some(hit);
                        },
                        None => {},
                    }
                    j = j + 1;
                }
                assert(found(value@, steps_after(segments@, at as int)) is None);
                None
            },
            _ => {
                assert(found(value@, steps_after(segments@, at as int)) is None);
                None
            },
        },
    }
}

fn read_member<'a>(value: &'a JsonValue, name: &String, segments: &[Segment], at: usize) -> (r:
    Option<&'a JsonValue>)
    requires
        at < segments.len(),
    ensures
        match r {
            Some(hit) => found_member(value@, name@, steps_after(segments@, at + 1)) == Some(hit@),
            None => found_member(value@, name@, steps_after(segments@, at + 1)) is None,
        },
    decreases segments@.len() - at, 0int,
{
    match value {
        JsonValue::Object(members) => {
            proof {
                lemma_object_view(*members);
            }
            let k = find_member(members, name);
            if k < members.len() {
                read_at(&members[k].1, segments, at + 1)
            } else {
                None
            }
        },
        _ => None,
    }
}

/// Write `replacement` at every place the selector resolves to and count
/// them. A last name or key is added to an object that lacks it; an ordinal
/// past the end, a member of something that is not an object and a child under
/// which the rest does not resolve all write nothing. Zero is the caller's
/// refusal. The count saturates at the largest `usize`.
pub fn write(value: &mut JsonValue, segments: &[Segment], replacement: &JsonValue) -> (count: usize)
    ensures
        count == capped(places(old(value)@, steps_of(segments@))),
        final(value)@ == put(old(value)@, steps_of(segments@), replacement@),
{
    assert(steps_after(segments@, 0) =~= steps_of(segments@));
    write_at(value, segments, 0, replacement)
}

fn write_at(value: &mut JsonValue, segments: &[Segment], at: usize, replacement: &JsonValue) -> (count:
    usize)
    requires
        at <= segments.len(),
    ensures
        count == capped(places(old(value)@, steps_after(segments@, at as int))),
        final(value)@ == put(old(value)@, steps_after(segments@, at as int), replacement@),
    decreases segments@.len() - at, 1int,
{
    if at == segments.len() {
        assert(steps_after(segments@, at as int).len() == 0);
        *value = replacement.duplicate();
        return 1;
    }
    proof {
        lemma_steps_after(segments@, at as int);
    }
    let ghost steps = steps_after(segments@, at as int);
    let ghost rest = steps_after(segments@, at + 1);
    let mut taken = JsonValue::Null;
    std::mem::swap(value, &mut taken);
    let ghost before = taken@;
    match &segments[at] {
        Segment::Name(name) => write_member(value, taken, name, segments, at, replacement),
        Segment::Key(name) => write_member(value, taken, name, segments, at, replacement),
        Segment::Number(index) => match taken {
            JsonValue::Array(mut items) => {
                proof {
                    lemma_array_view(items);
                }
                if *index < items.len() {
                    let ghost cs = items_view(items@);
                    let mut child = JsonValue::Null;
                    items.set_and_swap(*index, &mut child);
                    let count = write_at(&mut child, segments, at + 1, replacement);
                    items.set(*index, child);
                    proof {
                        lemma_array_view(items);
                        assert(items_view(items@) =~= cs.update(
                            *index as int,
                            put(cs[*index as int], rest, replacement@),
                        ));
                    }
                    *value = JsonValue::Array(items);
                    count
                } else {
                    *value = JsonValue::Array(items);
                    0
                }
            },
            other => {
                *value = other;
                0
            },
        },
        Segment::Any => match taken {
            JsonValue::Array(mut items) => {
                proof {
                    lemma_array_view(items);
                }
                let ghost cs = items_view(items@);
                let ghost mut partial: nat = 0;
                let mut count: usize = 0;
                let mut j: usize = 0;
                while j < items.len()
                    invariant
                        at < segments.len(),
                        rest == steps_after(segments@, at + 1),
                        cs.len() == items@.len(),
                        j <= items@.len(),
                        forall|m: int| 0 <= m < j ==> (#[trigger] items@[m])@ == put(cs[m], rest, replacement@),
                        forall|m: int| j <= m < cs.len() ==> (#[trigger] items@[m])@ == cs[m],
                        partial + places_from(cs, rest, j as int) == places_from(cs, rest, 0),
                        count == capped(partial),
                    decreases items.len() - j,
                {
                    let mut child = JsonValue::Null;
                    items.set_and_swap(j, &mut child);
                    let placed = write_at(&mut child, segments, at + 1, replacement);
                    items.set(j, child);
                    proof {
                        partial = partial + places(cs[j as int], rest);
                    }
                    count = count.saturating_add(placed);
                    j = j + 1;
                }
                proof {
                    lemma_array_view(items);
                    let whole = put(before, steps, replacement@);
                    assert(whole->Array_0 =~= items_view(items@));
                }
                *value = JsonValue::Array(items);
                count
            },
            JsonValue::Object(mut members) => {
                proof {
                    lemma_object_view(members);
                }
                let ghost ms = members_view(members@);
                let ghost cs = children(before);
                let ghost mut partial: nat = 0;
                let mut count: usize = 0;
                let mut j: usize = 0;
                while j < members.len()
                    invariant
                        at < segments.len(),
                        rest == steps_after(segments@, at + 1),
                        ms.len() == members@.len(),
                        cs == Seq::new(ms.len(), |k: int| ms[k].1),
                        j <= members@.len(),
                        forall|m: int|
                            0 <= m < j ==> (#[trigger] members@[m]).0@ == ms[m].0 && members@[m].1@
                                == put(ms[m].1, rest, replacement@),
                        forall|m: int|
                            j <= m < ms.len() ==> (#[trigger] members@[m]).0@ == ms[m].0
                                && members@[m].1@ == ms[m].1,
                        partial + places_from(cs, rest, j as int) == places_from(cs, rest, 0),
                        count == capped(partial),
                    decreases members.len() - j,
                {
                    let mut entry = (String::new(), JsonValue::Null);
                    members.set_and_swap(j, &mut entry);
                    let (name, mut child) = entry;
                    let placed = write_at(&mut child, segments, at + 1, replacement);
                    members.set(j, (name, child));
                    proof {
                        partial = partial + places(cs[j as int], rest);
                    }
                    count = count.saturating_add(placed);
                    j = j + 1;
                }
                proof {
                    lemma_object_view(members);
                    let whole = put(before, steps, replacement@);
                    assert(whole->Object_0 =~= members_view(members@));
                }
                *value = JsonValue::Object(members);
                count
            },
            other => {
                assert(children(before) =~= Seq::<Json>::empty());
                assert(places_from(children(before), rest, 0) == 0);
                *value = other;
                0
            },
        },
    }
}

fn write_member(
    value: &mut JsonValue,
    taken: JsonValue,
    name: &String,
    segments: &[Segment],
    at: usize,
    replacement: &JsonValue,
) -> (count: usize)
    requires
        at < segments.len(),
    ensures
        count == capped(member_places(taken@, name@, steps_after(segments@, at + 1))),
        final(value)@ == put_member(taken@, name@, steps_after(segments@, at + 1), replacement@),
    decreases segments@.len() - at, 0int,
{
    let ghost rest = steps_after(segments@, at + 1);
    match taken {
        JsonValue::Object(mut members) => {
            proof {
                lemma_object_view(members);
            }
            let ghost ms = members_view(members@);
            let k = find_member(&members, name);
            if k < members.len() {
                let mut entry = (String::new(), JsonValue::Null);
                members.set_and_swap(k, &mut entry);
                let (key, mut child) = entry;
                let count = write_at(&mut child, segments, at + 1, replacement);
                members.set(k, (key, child));
                proof {
                    lemma_object_view(members);
                    assert(members_view(members@) =~= ms.update(
                        k as int,
                        (ms[k as int].0, put(ms[k as int].1, rest, replacement@)),
                    ));
                }
                *value = JsonValue::Object(members);
                count
            } else if at + 1 == segments.len() {
                members.push((name.clone(), replacement.duplicate()));
                proof {
                    lemma_object_view(members);
                    assert(members_view(members@) =~= ms.push((name@, replacement@)));
                }
                *value = JsonValue::Object(members);
                1
            } else {
                *value = JsonValue::Object(members);
                0
            }
        },
        other => {
            *value = other;
            0
        },
    }
}

proof fn lemma_member_at_same_names(
    members: Seq<(Seq<char>, Json)>,
    renewed: Seq<(Seq<char>, Json)>,
    name: Seq<char>,
    i: int,
)
    requires
        0 <= i,
        renewed.len() == members.len(),
        forall|j: int| 0 <= j < members.len() ==> (#[trigger] renewed[j]).0 == members[j].0,
    ensures
        member_at(renewed, name, i) == member_at(members, name, i),
    decreases members.len() - i,
{
    if i < members.len() {
        assert(renewed[i].0 == members[i].0);
        if members[i].0 != name {
            lemma_member_at_same_names(members, renewed, name, i + 1);
        }
    }
}

proof fn lemma_member_at_push(
    members: Seq<(Seq<char>, Json)>,
    name: Seq<char>,
    value: Json,
    i: int,
)
    requires
        0 <= i <= members.len(),
        member_at(members, name, i) == members.len(),
    ensures
        member_at(members.push((name, value)), name, i) == members.len(),
    decreases members.len() - i,
{
    let pushed = members.push((name, value));
    if i < members.len() {
        assert(pushed[i] == members[i]);
        lemma_member_at_push(members, name, value, i + 1);
    } else {
        assert(pushed[i].0 == name);
    }
}

proof fn lemma_places_from_none(children: Seq<Json>, rest: Seq<Step>, i: int)
    requires
        0 <= i,
        places_from(children, rest, i) == 0,
    ensures
        forall|x: int| i <= x < children.len() ==> places(#[trigger] children[x], rest) == 0,
    decreases children.len() - i,
{
    if i < children.len() {
        lemma_places_from_none(children, rest, i + 1);
    }
}

proof fn lemma_places_from_covers(children: Seq<Json>, rest: Seq<Step>, i: int, x: int)
    requires
        0 <= i <= x < children.len(),
    ensures
        places(children[x], rest) <= places_from(children, rest, i),
    decreases children.len() - i,
{
    if i < x {
        lemma_places_from_covers(children, rest, i + 1, x);
    }
}

proof fn lemma_first_found_witness(children: Seq<Json>, rest: Seq<Step>, i: int) -> (x: int)
    requires
        0 <= i,
        first_found(children, rest, i) is Some,
    ensures
        i <= x < children.len(),
        found(children[x], rest) is Some,
    decreases children.len() - i,
{
    if found(children[i], rest) is Some {
        i
    } else {
        lemma_first_found_witness(children, rest, i + 1)
    }
}

proof fn lemma_first_found_of_written(
    children: Seq<Json>,
    written: Seq<Json>,
    rest: Seq<Step>,
    replacement: Json,
    i: int,
)
    requires
        0 <= i,
        written.len() == children.len(),
        forall|x: int|
            0 <= x < children.len() ==> found(#[trigger] written[x], rest) == (if places(
                children[x],
                rest,
            ) > 0 {
                Some(replacement)
            } else {
                None
            }),
    ensures
        first_found(written, rest, i) == (if places_from(children, rest, i) > 0 {
            Some(replacement)
        } else {
            None
        }),
    decreases children.len() - i,
{
    if i < children.len() {
        assert(found(written[i], rest) == (if places(children[i], rest) > 0 {
            Some(replacement)
        } else {
            None
        }));
        lemma_first_found_of_written(children, written, rest, replacement, i + 1);
    }
}

/// Writing where the selector names no place leaves the document as it was.
pub proof fn lemma_unplaced_write_changes_nothing(value: Json, steps: Seq<Step>, replacement: Json)
    requires
        places(value, steps) == 0,
    ensures
        put(value, steps, replacement) == value,
    decreases steps.len(), 1int,
{
    if steps.len() > 0 {
        let rest = steps.drop_first();
        match steps[0] {
            Step::Name(name) => lemma_unplaced_member(value, name, rest, replacement),
            Step::Key(name) => lemma_unplaced_member(value, name, rest, replacement),
            Step::Number(index) => {
                if let Json::Array(items) = value {
                    if index < items.len() {
                        lemma_unplaced_write_changes_nothing(items[index as int], rest, replacement);
                        assert(items.update(index as int, put(items[index as int], rest, replacement))
                            =~= items);
                    }
                }
            },
            Step::Any => {
                lemma_places_from_none(children(value), rest, 0);
                match value {
                    Json::Array(items) => {
                        assert forall|x: int| 0 <= x < items.len() implies put(
                            #[trigger] items[x],
                            rest,
                            replacement,
                        ) == items[x] by {
                            assert(places(children(value)[x], rest) == 0);
                            lemma_unplaced_write_changes_nothing(items[x], rest, replacement);
                        }
                        let whole = put(value, steps, replacement);
                        assert(whole->Array_0 =~= items);
                    },
                    Json::Object(members) => {
                        assert forall|x: int| 0 <= x < members.len() implies put(
                            (#[trigger] members[x]).1,
                            rest,
                            replacement,
                        ) == members[x].1 by {
                            assert(places(children(value)[x], rest) == 0);
                            lemma_unplaced_write_changes_nothing(members[x].1, rest, replacement);
                        }
                        let whole = put(value, steps, replacement);
                        assert(whole->Object_0 =~= members);
                    },
                    _ => {},
                }
            },
        }
    }
}

proof fn lemma_unplaced_member(value: Json, name: Seq<char>, rest: Seq<Step>, replacement: Json)
    requires
        member_places(value, name, rest) == 0,
    ensures
        put_member(value, name, rest, replacement) == value,
    decreases rest.len() + 1, 0int,
{
    if let Json::Object(members) = value {
        let k = member_of(members, name);
        if 0 <= k < members.len() {
            lemma_unplaced_write_changes_nothing(members[k].1, rest, replacement);
            assert(members.update(k, (members[k].0, put(members[k].1, rest, replacement)))
                =~= members);
        }
    }
}

/// A place that reads is a place that writes: whatever a selector reads, a
/// write by the same selector fills at least one place.
pub proof fn lemma_readable_is_writable(value: Json, steps: Seq<Step>)
    requires
        found(value, steps) is Some,
    ensures
        places(value, steps) > 0,
    decreases steps.len(), 1int,
{
    if steps.len() > 0 {
        let rest = steps.drop_first();
        match steps[0] {
            Step::Name(name) => lemma_readable_member(value, name, rest),
            Step::Key(name) => lemma_readable_member(value, name, rest),
            Step::Number(index) => {
                if let Json::Array(items) = value {
                    lemma_readable_is_writable(items[index as int], rest);
                }
            },
            Step::Any => {
                let cs = children(value);
                let x = lemma_first_found_witness(cs, rest, 0);
                lemma_readable_is_writable(cs[x], rest);
                lemma_places_from_covers(cs, rest, 0, x);
            },
        }
    }
}

proof fn lemma_readable_member(value: Json, name: Seq<char>, rest: Seq<Step>)
    requires
        found_member(value, name, rest) is Some,
    ensures
        member_places(value, name, rest) > 0,
    decreases rest.len() + 1, 0int,
{
    if let Json::Object(members) = value {
        let k = member_of(members, name);
        lemma_readable_is_writable(members[k].1, rest);
    }
}

/// What a read gives back of a write: after writing `replacement` by a
/// selector, reading by the same selector gives `replacement` if the write
/// filled any place, and nothing if it filled none.
pub proof fn lemma_read_after_write(value: Json, steps: Seq<Step>, replacement: Json)
    ensures
        found(put(value, steps, replacement), steps) == (if places(value, steps) > 0 {
            Some(replacement)
        } else {
            None
        }),
    decreases steps.len(), 1int,
{
    if steps.len() > 0 {
        let rest = steps.drop_first();
        match steps[0] {
            Step::Name(name) => lemma_read_after_write_member(value, name, rest, replacement),
            Step::Key(name) => lemma_read_after_write_member(value, name, rest, replacement),
            Step::Number(index) => {
                if let Json::Array(items) = value {
                    if index < items.len() {
                        lemma_read_after_write(items[index as int], rest, replacement);
                    }
                }
            },
            Step::Any => {
                let cs = children(value);
                let written = children(put(value, steps, replacement));
                assert forall|x: int| 0 <= x < cs.len() implies found(
                    #[trigger] written[x],
                    rest,
                ) == (if places(cs[x], rest) > 0 {
                    Some(replacement)
                } else {
                    None
                }) by {
                    lemma_read_after_write(cs[x], rest, replacement);
                }
                lemma_first_found_of_written(cs, written, rest, replacement, 0);
            },
        }
    }
}

proof fn lemma_read_after_write_member(
    value: Json,
    name: Seq<char>,
    rest: Seq<Step>,
    replacement: Json,
)
    ensures
        found_member(put_member(value, name, rest, replacement), name, rest) == (if member_places(
            value,
            name,
            rest,
        ) > 0 {
            Some(replacement)
        } else {
            None
        }),
    decreases rest.len() + 1, 0int,
{
    if let Json::Object(members) = value {
        let k = member_of(members, name);
        lemma_member_at_bounds(members, name, 0);
        if 0 <= k < members.len() {
            let renewed = members.update(k, (members[k].0, put(members[k].1, rest, replacement)));
            lemma_member_at_same_names(members, renewed, name, 0);
            lemma_read_after_write(members[k].1, rest, replacement);
        } else if rest.len() == 0 {
            lemma_member_at_push(members, name, replacement, 0);
            assert(members.push((name, replacement))[k].1 == replacement);
        }
    }
}

/// Writing the same value twice by the same selector is writing it once.
pub proof fn lemma_write_twice_is_write_once(value: Json, steps: Seq<Step>, replacement: Json)
    ensures
        put(put(value, steps, replacement), steps, replacement) == put(value, steps, replacement),
    decreases steps.len(), 1int,
{
    if steps.len() > 0 {
        let rest = steps.drop_first();
        match steps[0] {
            Step::Name(name) => lemma_write_member_twice(value, name, rest, replacement),
            Step::Key(name) => lemma_write_member_twice(value, name, rest, replacement),
            Step::Number(index) => {
                if let Json::Array(items) = value {
                    if index < items.len() {
                        lemma_write_twice_is_write_once(items[index as int], rest, replacement);
                        let once = items.update(
                            index as int,
                            put(items[index as int], rest, replacement),
                        );
                        assert(once.update(index as int, put(once[index as int], rest, replacement))
                            =~= once);
                    }
                }
            },
            Step::Any => {
                match value {
                    Json::Array(items) => {
                        let once = put(value, steps, replacement)->Array_0;
                        assert forall|x: int| 0 <= x < items.len() implies put(
                            #[trigger] once[x],
                            rest,
                            replacement,
                        ) == once[x] by {
                            lemma_write_twice_is_write_once(items[x], rest, replacement);
                        }
                        let twice = put(put(value, steps, replacement), steps, replacement);
                        assert(twice->Array_0 =~= once);
                    },
                    Json::Object(members) => {
                        let once = put(value, steps, replacement)->Object_0;
                        assert forall|x: int| 0 <= x < members.len() implies put(
                            (#[trigger] once[x]).1,
                            rest,
                            replacement,
                        ) == once[x].1 by {
                            lemma_write_twice_is_write_once(members[x].1, rest, replacement);
                        }
                        let twice = put(put(value, steps, replacement), steps, replacement);
                        assert(twice->Object_0 =~= once);
                    },
                    _ => {},
                }
            },
        }
    }
}

proof fn lemma_write_member_twice(value: Json, name: Seq<char>, rest: Seq<Step>, replacement: Json)
    ensures
        put_member(put_member(value, name, rest, replacement), name, rest, replacement)
            == put_member(value, name, rest, replacement),
    decreases rest.len() + 1, 0int,
{
    if let Json::Object(members) = value {
        let k = member_of(members, name);
        lemma_member_at_bounds(members, name, 0);
        if 0 <= k < members.len() {
            let once = members.update(k, (members[k].0, put(members[k].1, rest, replacement)));
            lemma_member_at_same_names(members, once, name, 0);
            lemma_write_twice_is_write_once(members[k].1, rest, replacement);
            assert(once.update(k, (once[k].0, put(once[k].1, rest, replacement))) =~= once);
        } else if rest.len() == 0 {
            let once = members.push((name, replacement));
            lemma_member_at_push(members, name, replacement, 0);
            assert(once.update(k, (once[k].0, put(once[k].1, rest, replacement))) =~= once);
        }
    }
}

proof fn lemma_member_at_absent(members: Seq<(Seq<char>, Json)>, name: Seq<char>, i: int)
    requires
        0 <= i <= members.len(),
        member_at(members, name, i) == members.len(),
    ensures
        forall|j: int| i <= j < members.len() ==> (#[trigger] members[j]).0 != name,
    decreases members.len() - i,
{
    if i < members.len() {
        lemma_member_at_absent(members, name, i + 1);
    }
}

/// Writing keeps every object's member names distinct, provided the document
/// and the replacement have distinct names to begin with.
pub proof fn lemma_write_keeps_names_distinct(value: Json, steps: Seq<Step>, replacement: Json)
    requires
        distinct_names(value),
        distinct_names(replacement),
    ensures
        distinct_names(put(value, steps, replacement)),
    decreases steps.len(), 1int,
{
    if steps.len() > 0 {
        let rest = steps.drop_first();
        match steps[0] {
            Step::Name(name) => lemma_member_write_keeps_names_distinct(
                value,
                name,
                rest,
                replacement,
            ),
            Step::Key(name) => lemma_member_write_keeps_names_distinct(
                value,
                name,
                rest,
                replacement,
            ),
            Step::Number(index) => {
                if let Json::Array(items) = value {
                    if index < items.len() {
                        assert(distinct_names(items[index as int]));
                        lemma_write_keeps_names_distinct(items[index as int], rest, replacement);
                        let once = put(value, steps, replacement)->Array_0;
                        assert forall|k: int| 0 <= k < once.len() implies distinct_names(
                            #[trigger] once[k],
                        ) by {
                            if k != index {
                                assert(once[k] == items[k]);
                            }
                        }
                    }
                }
            },
            Step::Any => {
                match value {
                    Json::Array(items) => {
                        let once = put(value, steps, replacement)->Array_0;
                        assert forall|k: int| 0 <= k < once.len() implies distinct_names(
                            #[trigger] once[k],
                        ) by {
                            assert(distinct_names(items[k]));
                            lemma_write_keeps_names_distinct(items[k], rest, replacement);
                        }
                    },
                    Json::Object(members) => {
                        let once = put(value, steps, replacement)->Object_0;
                        assert forall|a: int, b: int|
                            0 <= a < b < once.len() implies (#[trigger] once[a]).0 != (
                        #[trigger] once[b]).0 by {
                            assert(members[a].0 != members[b].0);
                        }
                        assert forall|k: int| 0 <= k < once.len() implies distinct_names(
                            #[trigger] once[k].1,
                        ) by {
                            assert(distinct_names(members[k].1));
                            lemma_write_keeps_names_distinct(members[k].1, rest, replacement);
                        }
                    },
                    _ => {},
                }
            },
        }
    }
}

proof fn lemma_member_write_keeps_names_distinct(
    value: Json,
    name: Seq<char>,
    rest: Seq<Step>,
    replacement: Json,
)
    requires
        distinct_names(value),
        distinct_names(replacement),
    ensures
        distinct_names(put_member(value, name, rest, replacement)),
    decreases rest.len() + 1, 0int,
{
    if let Json::Object(members) = value {
        let k = member_of(members, name);
        lemma_member_at_bounds(members, name, 0);
        if 0 <= k < members.len() {
            let once = members.update(k, (members[k].0, put(members[k].1, rest, replacement)));
            assert(distinct_names(members[k].1));
            lemma_write_keeps_names_distinct(members[k].1, rest, replacement);
            assert forall|a: int, b: int|
                0 <= a < b < once.len() implies (#[trigger] once[a]).0 != (#[trigger] once[b]).0 by {
                assert(members[a].0 != members[b].0);
            }
            assert forall|j: int| 0 <= j < once.len() implies distinct_names(#[trigger] once[j].1) by {
                if j != k {
                    assert(distinct_names(members[j].1));
                }
            }
        } else if rest.len() == 0 {
            let once = members.push((name, replacement));
            lemma_member_at_absent(members, name, 0);
            assert forall|a: int, b: int|
                0 <= a < b < once.len() implies (#[trigger] once[a]).0 != (#[trigger] once[b]).0 by {
                if b < members.len() {
                    assert(members[a].0 != members[b].0);
                } else {
                    assert(members[a].0 != name);
                }
            }
            assert forall|j: int| 0 <= j < once.len() implies distinct_names(#[trigger] once[j].1) by {
                if j < members.len() {
                    assert(distinct_names(members[j].1));
                }
            }
        }
    }
}

proof fn lemma_places_from_pointwise(
    children: Seq<Json>,
    others: Seq<Json>,
    rest: Seq<Step>,
    other_rest: Seq<Step>,
    i: int,
)
    requires
        0 <= i,
        others.len() == children.len(),
        forall|x: int|
            0 <= x < children.len() ==> places(#[trigger] others[x], other_rest) == places(
                children[x],
                rest,
            ),
    ensures
        places_from(others, other_rest, i) == places_from(children, rest, i),
    decreases children.len() - i,
{
    if i < children.len() {
        assert(places(others[i], other_rest) == places(children[i], rest));
        lemma_places_from_pointwise(children, others, rest, other_rest, i + 1);
    }
}

/// A second write by the same selector fills exactly as many places as the
/// first.
pub proof fn lemma_rewrite_counts_the_same_places(value: Json, steps: Seq<Step>, replacement: Json)
    ensures
        places(put(value, steps, replacement), steps) == places(value, steps),
    decreases steps.len(), 1int,
{
    if steps.len() > 0 {
        let rest = steps.drop_first();
        match steps[0] {
            Step::Any => {
                match value {
                    Json::Array(items) => {
                        let once = put(value, steps, replacement)->Array_0;
                        assert forall|x: int| 0 <= x < items.len() implies places(
                            #[trigger] once[x],
                            rest,
                        ) == places(items[x], rest) by {
                            lemma_rewrite_counts_the_same_places(items[x], rest, replacement);
                        }
                        lemma_places_from_pointwise(items, once, rest, rest, 0);
                    },
                    Json::Object(members) => {
                        let once = children(put(value, steps, replacement));
                        let cs = children(value);
                        assert forall|x: int| 0 <= x < cs.len() implies places(
                            #[trigger] once[x],
                            rest,
                        ) == places(cs[x], rest) by {
                            lemma_rewrite_counts_the_same_places(members[x].1, rest, replacement);
                        }
                        lemma_places_from_pointwise(cs, once, rest, rest, 0);
                    },
                    _ => {},
                }
            },
            Step::Number(index) => {
                if let Json::Array(items) = value {
                    if index < items.len() {
                        lemma_rewrite_counts_the_same_places(items[index as int], rest, replacement);
                    }
                }
            },
            Step::Name(name) => lemma_member_rewrite_counts(value, name, rest, replacement),
            Step::Key(name) => lemma_member_rewrite_counts(value, name, rest, replacement),
        }
    }
}

proof fn lemma_member_rewrite_counts(value: Json, name: Seq<char>, rest: Seq<Step>, replacement: Json)
    ensures
        member_places(put_member(value, name, rest, replacement), name, rest) == member_places(
            value,
            name,
            rest,
        ),
    decreases rest.len() + 1, 0int,
{
    if let Json::Object(members) = value {
        let k = member_of(members, name);
        lemma_member_at_bounds(members, name, 0);
        if 0 <= k < members.len() {
            let once = members.update(k, (members[k].0, put(members[k].1, rest, replacement)));
            lemma_member_at_same_names(members, once, name, 0);
            lemma_rewrite_counts_the_same_places(members[k].1, rest, replacement);
        } else if rest.len() == 0 {
            lemma_member_at_push(members, name, replacement, 0);
            assert(members.push((name, replacement))[k].1 == replacement);
        }
    }
}

/// The steps contain no wildcard.
pub open spec fn no_wildcard(steps: Seq<Step>) -> bool {
    forall|i: int| 0 <= i < steps.len() ==> !(#[trigger] steps[i] is Any)
}

/// Reading by a selector without a wildcard, followed by more steps, reads
/// the first part, then the rest from what it found.
pub proof fn lemma_read_in_two_parts(value: Json, first: Seq<Step>, second: Seq<Step>)
    requires
        no_wildcard(first),
    ensures
        found(value, first + second) == match found(value, first) {
            Some(middle) => found(middle, second),
            None => None,
        },
    decreases first.len(), 1int,
{
    if first.len() == 0 {
        assert(first + second =~= second);
    } else {
        let whole = first + second;
        let rest = first.drop_first();
        assert(whole[0] == first[0]);
        assert(whole.drop_first() =~= rest + second);
        assert(!(first[0] is Any));
        assert(no_wildcard(rest)) by {
            assert forall|i: int| 0 <= i < rest.len() implies !(#[trigger] rest[i] is Any) by {
                assert(rest[i] == first[i + 1]);
            }
        }
        match first[0] {
            Step::Name(name) => lemma_read_member_in_two_parts(value, name, rest, second),
            Step::Key(name) => lemma_read_member_in_two_parts(value, name, rest, second),
            Step::Number(index) => {
                if let Json::Array(items) = value {
                    if index < items.len() {
                        lemma_read_in_two_parts(items[index as int], rest, second);
                    }
                }
            },
            Step::Any => {},
        }
    }
}

proof fn lemma_read_member_in_two_parts(
    value: Json,
    name: Seq<char>,
    first: Seq<Step>,
    second: Seq<Step>,
)
    requires
        no_wildcard(first),
    ensures
        found_member(value, name, first + second) == match found_member(value, name, first) {
            Some(middle) => found(middle, second),
            None => None,
        },
    decreases first.len() + 1, 0int,
{
    if let Json::Object(members) = value {
        let k = member_of(members, name);
        if 0 <= k < members.len() {
            lemma_read_in_two_parts(members[k].1, first, second);
        }
    }
}

/// The member name a step steps into: that of a name or a key.
pub open spec fn member_name(step: Step) -> Option<Seq<char>> {
    match step {
        Step::Name(name) => Some(name),
        Step::Key(name) => Some(name),
        _ => None,
    }
}

/// Two selectors alike but that a name may stand where the other has a key
/// of the same characters, or the other way round.
pub open spec fn alike_steps(a: Seq<Step>, b: Seq<Step>) -> bool {
    &&& a.len() == b.len()
    &&& forall|i: int|
        0 <= i < a.len() ==> (#[trigger] a[i] == b[i] || (member_name(a[i]) is Some
            && member_name(a[i]) == member_name(b[i])))
}

proof fn lemma_first_found_pointwise(children: Seq<Json>, a: Seq<Step>, b: Seq<Step>, i: int)
    requires
        0 <= i,
        forall|x: int| 0 <= x < children.len() ==> found(#[trigger] children[x], a) == found(children[x], b),
    ensures
        first_found(children, a, i) == first_found(children, b, i),
    decreases children.len() - i,
{
    if i < children.len() {
        assert(found(children[i], a) == found(children[i], b));
        lemma_first_found_pointwise(children, a, b, i + 1);
    }
}

/// A name and a key of the same characters step into the same member: two
/// selectors alike in that way read, count and write alike.
pub proof fn lemma_name_and_key_alike(value: Json, a: Seq<Step>, b: Seq<Step>, replacement: Json)
    requires
        alike_steps(a, b),
    ensures
        found(value, a) == found(value, b),
        places(value, a) == places(value, b),
        put(value, a, replacement) == put(value, b, replacement),
    decreases a.len(),
{
    if a.len() > 0 {
        let ra = a.drop_first();
        let rb = b.drop_first();
        assert(alike_steps(ra, rb)) by {
            assert forall|i: int| 0 <= i < ra.len() implies (#[trigger] ra[i] == rb[i] || (
            member_name(ra[i]) is Some && member_name(ra[i]) == member_name(rb[i]))) by {
                assert(ra[i] == a[i + 1] && rb[i] == b[i + 1]);
            }
        }
        assert(a[0] == b[0] || (member_name(a[0]) is Some && member_name(a[0]) == member_name(
            b[0],
        )));
        if member_name(a[0]) is Some {
            let name = member_name(a[0])->Some_0;
            if let Json::Object(members) = value {
                let k = member_of(members, name);
                if 0 <= k < members.len() {
                    lemma_name_and_key_alike(members[k].1, ra, rb, replacement);
                }
            }
            assert(found(value, a) == found_member(value, name, ra));
            assert(found(value, b) == found_member(value, name, rb));
            assert(places(value, a) == member_places(value, name, ra));
            assert(places(value, b) == member_places(value, name, rb));
            assert(put(value, a, replacement) == put_member(value, name, ra, replacement));
            assert(put(value, b, replacement) == put_member(value, name, rb, replacement));
        } else {
            match a[0] {
                Step::Number(index) => {
                    if let Json::Array(items) = value {
                        if index < items.len() {
                            lemma_name_and_key_alike(items[index as int], ra, rb, replacement);
                        }
                    }
                },
                _ => {
                    let cs = children(value);
                    assert forall|x: int| 0 <= x < cs.len() implies found(#[trigger] cs[x], ra)
                        == found(cs[x], rb) && places(cs[x], ra) == places(cs[x], rb) && put(
                        cs[x],
                        ra,
                        replacement,
                    ) == put(cs[x], rb, replacement) by {
                        lemma_name_and_key_alike(cs[x], ra, rb, replacement);
                    }
                    lemma_first_found_pointwise(cs, ra, rb, 0);
                    lemma_places_from_pointwise(cs, cs, ra, rb, 0);
                    match value {
                        Json::Array(items) => {
                            assert(put(value, a, replacement)->Array_0 =~= put(
                                value,
                                b,
                                replacement,
                            )->Array_0);
                        },
                        Json::Object(members) => {
                            assert forall|x: int| 0 <= x < members.len() implies put(
                                (#[trigger] members[x]).1,
                                ra,
                                replacement,
                            ) == put(members[x].1, rb, replacement) by {
                                assert(cs[x] == members[x].1);
                            }
                            assert(put(value, a, replacement)->Object_0 =~= put(
                                value,
                                b,
                                replacement,
                            )->Object_0);
                        },
                        _ => {},
                    }
                },
            }
        }
    }
}

proof fn lemma_first_step(step: Step, rest: Seq<Step>)
    ensures
        (seq![step] + rest).len() > 0,
        (seq![step] + rest)[0] == step,
        (seq![step] + rest).drop_first() == rest,
{
    assert((seq![step] + rest).drop_first() =~= rest);
}

/// The children `[n]` steps into are an array's elements, an object's member
/// values in order, and nothing else.
pub proof fn lemma_children(value: Json)
    ensures
        match value {
            Json::Array(items) => children(value) == items,
            Json::Object(members) => children(value).len() == members.len() && forall|k: int|
                0 <= k < members.len() ==> #[trigger] children(value)[k] == members[k].1,
            _ => children(value).len() == 0,
        },
{
}

/// The member a name or key steps into is the first one of that name; where
/// none has it, the position is the number of members.
pub proof fn lemma_member_of_is_first_named(members: Seq<(Seq<char>, Json)>, name: Seq<char>)
    ensures
        0 <= member_of(members, name) <= members.len(),
        member_of(members, name) < members.len() ==> members[member_of(members, name)].0 == name,
        forall|j: int| 0 <= j < member_of(members, name) ==> (#[trigger] members[j]).0 != name,
{
    lemma_member_at_first(members, name, 0);
}

proof fn lemma_member_at_first(members: Seq<(Seq<char>, Json)>, name: Seq<char>, i: int)
    requires
        0 <= i <= members.len(),
    ensures
        i <= member_at(members, name, i) <= members.len(),
        member_at(members, name, i) < members.len() ==> members[member_at(members, name, i)].0
            == name,
        forall|j: int| i <= j < member_at(members, name, i) ==> (#[trigger] members[j]).0 != name,
    decreases members.len() - i,
{
    if i < members.len() && members[i].0 != name {
        lemma_member_at_first(members, name, i + 1);
    }
}

/// Reading with no steps reads the value itself; an ordinal reads the element
/// at that position, and nothing past the end or in what is not an array; a
/// name or a key reads in the first member of that name, and nothing where no
/// member has it or in what is not an object.
pub proof fn lemma_read_one_step(value: Json, step: Step, rest: Seq<Step>)
    ensures
        found(value, Seq::empty()) == Some(value),
        step matches Step::Number(index) ==> found(value, seq![step] + rest) == match value {
            Json::Array(items) => if index < items.len() {
                found(items[index as int], rest)
            } else {
                None
            },
            _ => None,
        },
        member_name(step) matches Some(name) ==> found(value, seq![step] + rest) == match value {
            Json::Object(members) => if member_of(members, name) < members.len() {
                found(members[member_of(members, name)].1, rest)
            } else {
                None
            },
            _ => None,
        },
{
    lemma_first_step(step, rest);
    if let Some(name) = member_name(step) {
        if let Json::Object(members) = value {
            lemma_member_of_is_first_named(members, name);
        }
        assert(found(value, seq![step] + rest) == found_member(value, name, rest));
    }
}

/// `[n]` reads at the first child under which the rest resolves, whatever the
/// later children hold.
pub proof fn lemma_wildcard_reads_first_resolving_child(value: Json, rest: Seq<Step>, i: int)
    requires
        0 <= i < children(value).len(),
        found(children(value)[i], rest) is Some,
        forall|j: int| 0 <= j < i ==> found(#[trigger] children(value)[j], rest) is None,
    ensures
        found(value, seq![Step::Any] + rest) == found(children(value)[i], rest),
{
    lemma_first_step(Step::Any, rest);
    lemma_first_found_at(children(value), rest, 0, i);
}

/// `[n]` reads nothing where the rest resolves under no child.
pub proof fn lemma_wildcard_reads_nothing(value: Json, rest: Seq<Step>)
    requires
        forall|j: int| 0 <= j < children(value).len() ==> found(#[trigger] children(value)[j], rest) is None,
    ensures
        found(value, seq![Step::Any] + rest) is None,
{
    lemma_first_step(Step::Any, rest);
    lemma_first_found_none(children(value), rest, 0);
}

proof fn lemma_first_found_at(children: Seq<Json>, rest: Seq<Step>, k: int, i: int)
    requires
        0 <= k <= i < children.len(),
        found(children[i], rest) is Some,
        forall|j: int| 0 <= j < i ==> found(#[trigger] children[j], rest) is None,
    ensures
        first_found(children, rest, k) == found(children[i], rest),
    decreases i - k,
{
    if k < i {
        assert(found(children[k], rest) is None);
        lemma_first_found_at(children, rest, k + 1, i);
    }
}

proof fn lemma_first_found_none(children: Seq<Json>, rest: Seq<Step>, k: int)
    requires
        0 <= k,
        forall|j: int| 0 <= j < children.len() ==> found(#[trigger] children[j], rest) is None,
    ensures
        first_found(children, rest, k) is None,
    decreases children.len() - k,
{
    if k < children.len() {
        assert(found(children[k], rest) is None);
        lemma_first_found_none(children, rest, k + 1);
    }
}

/// Writing with no steps gives the replacement; writing by an ordinal keeps
/// the array's length and every other element, and writes into the element at
/// that position; past the end, or in what is not an array, nothing changes.
pub proof fn lemma_write_by_ordinal(value: Json, index: usize, rest: Seq<Step>, replacement: Json)
    ensures
        put(value, Seq::empty(), replacement) == replacement,
        ({
            let written = put(value, seq![Step::Number(index)] + rest, replacement);
            match value {
                Json::Array(items) => if index < items.len() {
                    &&& written is Array
                    &&& written->Array_0.len() == items.len()
                    &&& written->Array_0[index as int] == put(items[index as int], rest, replacement)
                    &&& forall|j: int|
                        0 <= j < items.len() && j != index ==> #[trigger] written->Array_0[j]
                            == items[j]
                } else {
                    written == value
                },
                _ => written == value,
            }
        }),
{
    lemma_first_step(Step::Number(index), rest);
}

/// Writing by `[n]` writes under every child: an array keeps its length and
/// each element is written into; an object keeps its member names in order and
/// each value is written into; anything else is left as it was.
pub proof fn lemma_write_by_wildcard(value: Json, rest: Seq<Step>, replacement: Json)
    ensures
        ({
            let written = put(value, seq![Step::Any] + rest, replacement);
            match value {
                Json::Array(items) => {
                    &&& written is Array
                    &&& written->Array_0.len() == items.len()
                    &&& forall|j: int|
                        0 <= j < items.len() ==> #[trigger] written->Array_0[j] == put(
                            items[j],
                            rest,
                            replacement,
                        )
                },
                Json::Object(members) => {
                    &&& written is Object
                    &&& written->Object_0.len() == members.len()
                    &&& forall|j: int|
                        0 <= j < members.len() ==> (#[trigger] written->Object_0[j]).0
                            == members[j].0 && written->Object_0[j].1 == put(
                            members[j].1,
                            rest,
                            replacement,
                        )
                },
                _ => written == value,
            }
        }),
{
    lemma_first_step(Step::Any, rest);
}

/// Writing by a name or a key writes into the first member of that name,
/// keeping every other member and the order; where no member has it and the
/// selector ends there, the replacement is added as a new last member;
/// otherwise, and in what is not an object, nothing changes.
pub proof fn lemma_write_by_member(value: Json, step: Step, rest: Seq<Step>, replacement: Json)
    requires
        member_name(step) is Some,
    ensures
        ({
            let name = member_name(step)->Some_0;
            let written = put(value, seq![step] + rest, replacement);
            match value {
                Json::Object(members) => {
                    let k = member_of(members, name);
                    if k < members.len() {
                        &&& written is Object
                        &&& written->Object_0.len() == members.len()
                        &&& written->Object_0[k] == (members[k].0, put(members[k].1, rest, replacement))
                        &&& forall|j: int|
                            0 <= j < members.len() && j != k ==> #[trigger] written->Object_0[j]
                                == members[j]
                    } else if rest.len() == 0 {
                        written == Json::Object(members.push((name, replacement)))
                    } else {
                        written == value
                    }
                },
                _ => written == value,
            }
        }),
{
    lemma_first_step(step, rest);
    let name = member_name(step)->Some_0;
    if let Json::Object(members) = value {
        lemma_member_of_is_first_named(members, name);
    }
    assert(put(value, seq![step] + rest, replacement) == put_member(value, name, rest, replacement));
}

proof fn lemma_places_from_push(children: Seq<Json>, child: Json, rest: Seq<Step>, i: int)
    requires
        0 <= i <= children.len(),
    ensures
        places_from(children.push(child), rest, i) == places_from(children, rest, i) + places(
            child,
            rest,
        ),
    decreases children.len() - i,
{
    let pushed = children.push(child);
    if i < children.len() {
        assert(pushed[i] == children[i]);
        lemma_places_from_push(children, child, rest, i + 1);
    } else {
        assert(pushed[i] == child);
        assert(places_from(pushed, rest, i + 1) == 0);
    }
}

/// How many places a write fills: one with no steps; by an ordinal, those in
/// the element at that position; by `[n]` over an array, those under each
/// element, added up: none in an empty array, and one more element adds its
/// own.
pub proof fn lemma_places_count(items: Seq<Json>, child: Json, index: usize, rest: Seq<Step>)
    ensures
        places(Json::Array(items), Seq::empty()) == 1,
        places(Json::Array(items), seq![Step::Number(index)] + rest) == if index < items.len() {
            places(items[index as int], rest)
        } else {
            0
        },
        places(Json::Array(Seq::empty()), seq![Step::Any] + rest) == 0,
        places(Json::Array(items.push(child)), seq![Step::Any] + rest) == places(
            Json::Array(items),
            seq![Step::Any] + rest,
        ) + places(child, rest),
{
    lemma_first_step(Step::Number(index), rest);
    lemma_first_step(Step::Any, rest);
    lemma_places_from_push(items, child, rest, 0);
    assert(children(Json::Array(Seq::empty())).len() == 0);
    assert(places_from(children(Json::Array(Seq::<Json>::empty())), rest, 0) == 0);
}

} // verus!
