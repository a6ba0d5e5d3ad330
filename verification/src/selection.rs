//! What is picked out of a list: the value that counts, what is missing, and
//! what is kept.

use crate::expansion::{private_jobs, shared_jobs, usable, Job, JobSharing};
use crate::options::{argument, kind_word, last_value};
use crate::reading::{is_blank, lacks, law_trimming_takes_off_white_space};
use crate::symbolic::{fed, first_missing, fixed_from, value_of, Binding};
use crate::text::{is_space, lemma_is_first_of};
use vstd::prelude::*;

verus! {

/// Of several bindings of a name the last one counts, and a name without a
/// binding has no value.
pub proof fn law_last_binding_counts(bindings: Seq<Binding>, name: Seq<char>)
    ensures
        match value_of(bindings, name) {
            Some(value) => exists|i: int|
                {
                    &&& 0 <= i < bindings.len()
                    &&& (#[trigger] bindings[i]).name@ == name
                    &&& bindings[i].value == value
                    &&& forall|j: int|
                        i < j < bindings.len() ==> (#[trigger] bindings[j]).name@ != name
                },
            None => forall|i: int|
                0 <= i < bindings.len() ==> (#[trigger] bindings[i]).name@ != name,
        },
    decreases bindings.len(),
{
    if bindings.len() > 0 {
        let front = bindings.drop_last();
        let end = bindings.len() - 1;
        if bindings.last().name@ == name {
            assert(bindings[end].name@ == name);
        } else {
            law_last_binding_counts(front, name);
            match value_of(bindings, name) {
                Some(value) => {
                    let i = choose|i: int|
                        {
                            &&& 0 <= i < front.len()
                            &&& (#[trigger] front[i]).name@ == name
                            &&& front[i].value == value
                            &&& forall|j: int|
                                i < j < front.len() ==> (#[trigger] front[j]).name@ != name
                        };
                    assert(bindings[i] == front[i]);
                    assert forall|j: int| i < j < bindings.len() implies (
                    #[trigger] bindings[j]).name@ != name by {
                        if j < end {
                            assert(front[j] == bindings[j]);
                        }
                    }
                },
                None => {
                    assert forall|i: int| 0 <= i < bindings.len() implies (
                    #[trigger] bindings[i]).name@ != name by {
                        if i < end {
                            assert(front[i] == bindings[i]);
                        }
                    }
                },
            }
        }
    }
}

/// Of several bindings of a symbol the last one counts, and a symbol without a
/// binding has no value.
pub proof fn law_last_symbol_binding_counts(bindings: Seq<(usize, i64)>, index: int)
    ensures
        match last_value(bindings, index) {
            Some(value) => exists|i: int|
                {
                    &&& 0 <= i < bindings.len()
                    &&& (#[trigger] bindings[i]).0 == index
                    &&& bindings[i].1 == value
                    &&& forall|j: int| i < j < bindings.len() ==> (#[trigger] bindings[j]).0 != index
                },
            None => forall|i: int| 0 <= i < bindings.len() ==> (#[trigger] bindings[i]).0 != index,
        },
    decreases bindings.len(),
{
    if bindings.len() > 0 {
        let front = bindings.drop_last();
        let end = bindings.len() - 1;
        if bindings.last().0 == index {
            assert(bindings[end].0 == index);
        } else {
            law_last_symbol_binding_counts(front, index);
            match last_value(bindings, index) {
                Some(value) => {
                    let i = choose|i: int|
                        {
                            &&& 0 <= i < front.len()
                            &&& (#[trigger] front[i]).0 == index
                            &&& front[i].1 == value
                            &&& forall|j: int|
                                i < j < front.len() ==> (#[trigger] front[j]).0 != index
                        };
                    assert(bindings[i] == front[i]);
                    assert forall|j: int| i < j < bindings.len() implies (
                    #[trigger] bindings[j]).0 != index by {
                        if j < end {
                            assert(front[j] == bindings[j]);
                        }
                    }
                },
                None => {
                    assert forall|i: int| 0 <= i < bindings.len() implies (
                    #[trigger] bindings[i]).0 != index by {
                        if i < end {
                            assert(front[i] == bindings[i]);
                        }
                    }
                },
            }
        }
    }
}

/// The name has a binding.
pub open spec fn is_bound(bindings: Seq<Binding>, name: Seq<char>) -> bool {
    exists|i: int| 0 <= i < bindings.len() && (#[trigger] bindings[i]).name@ == name
}

/// The first parameter without a binding is missed, and nothing where every
/// parameter has one.
pub proof fn law_first_unbound_parameter_is_missed(
    params: Seq<String>,
    bindings: Seq<Binding>,
    at: nat,
)
    ensures
        match first_missing(params, bindings, at) {
            Some(name) => exists|i: int|
                {
                    &&& at <= i < params.len()
                    &&& (#[trigger] params[i])@ == name
                    &&& !is_bound(bindings, name)
                    &&& forall|j: int| at <= j < i ==> is_bound(bindings, (#[trigger] params[j])@)
                },
            None => forall|i: int|
                at <= i < params.len() ==> is_bound(bindings, (#[trigger] params[i])@),
        },
    decreases params.len() - at,
{
    if at < params.len() {
        let here = params[at as int]@;
        law_last_binding_counts(bindings, here);
        if value_of(bindings, here) is Some {
            assert(is_bound(bindings, here));
            law_first_unbound_parameter_is_missed(params, bindings, at + 1);
            if let Some(name) = first_missing(params, bindings, at) {
                let i = choose|i: int|
                    {
                        &&& at + 1 <= i < params.len()
                        &&& (#[trigger] params[i])@ == name
                        &&& !is_bound(bindings, name)
                        &&& forall|j: int|
                            at + 1 <= j < i ==> is_bound(bindings, (#[trigger] params[j])@)
                    };
                assert(params[i]@ == name);
            }
        }
    }
}

/// The parameter at a position has a name with this value.
pub open spec fn has_value(
    names: Seq<Option<String>>,
    bindings: Seq<Binding>,
    at: int,
    value: int,
) -> bool {
    &&& 0 <= at < names.len()
    &&& names[at] matches Some(name) && (value_of(bindings, name@) matches Some(bound) && bound
        == value)
}

/// The fixed parameters are those whose name has a value, each at that value,
/// from the last to the first. There are none exactly where one value does not
/// fit in 32 bits.
pub proof fn law_fixed_parameters_are_the_bound_ones(
    names: Seq<Option<String>>,
    bindings: Seq<Binding>,
    at: nat,
)
    requires
        names.len() <= usize::MAX,
    ensures
        match fixed_from(names, bindings, at) {
            Ok(fixed) => {
                &&& forall|i: int|
                    #![trigger fixed[i]]
                    0 <= i < fixed.len() ==> at <= fixed[i].0 && has_value(
                        names,
                        bindings,
                        fixed[i].0 as int,
                        fixed[i].1 as int,
                    )
                &&& forall|i: int, j: int|
                    #![trigger fixed[i], fixed[j]]
                    0 <= i < j < fixed.len() ==> fixed[i].0 > fixed[j].0
                &&& forall|place: int, value: int|
                    at <= place && #[trigger] has_value(names, bindings, place, value)
                        ==> i32::MIN <= value <= i32::MAX && fixed.contains(
                        (place as usize, value as i32),
                    )
            },
            Err(name) => exists|place: int, value: int|
                {
                    &&& at <= place
                    &&& #[trigger] has_value(names, bindings, place, value)
                    &&& names[place]->0@ == name
                    &&& !(i32::MIN <= value <= i32::MAX)
                },
        },
    decreases names.len() - at,
{
    if at < names.len() {
        law_fixed_parameters_are_the_bound_ones(names, bindings, at + 1);
        let here = at as int;
        match fixed_from(names, bindings, at + 1) {
            Err(name) => {
                let (place, value) = choose|place: int, value: int|
                    {
                        &&& at + 1 <= place
                        &&& #[trigger] has_value(names, bindings, place, value)
                        &&& names[place]->0@ == name
                        &&& !(i32::MIN <= value <= i32::MAX)
                    };
                assert(has_value(names, bindings, place, value));
            },
            Ok(behind) => match fixed_from(names, bindings, at) {
                Err(name) => {
                    let value = value_of(bindings, name)->0 as int;
                    assert(has_value(names, bindings, here, value));
                },
                Ok(fixed) => {
                    assert forall|i: int|
                        #![trigger fixed[i]]
                        0 <= i < fixed.len() implies at <= fixed[i].0 && has_value(
                        names,
                        bindings,
                        fixed[i].0 as int,
                        fixed[i].1 as int,
                    ) by {
                        if i < behind.len() {
                            assert(fixed[i] == behind[i]);
                        }
                    }
                    assert forall|i: int, j: int|
                        #![trigger fixed[i], fixed[j]]
                        0 <= i < j < fixed.len() implies fixed[i].0 > fixed[j].0 by {
                        assert(fixed[i] == behind[i]);
                        if j < behind.len() {
                            assert(fixed[j] == behind[j]);
                        }
                    }
                    assert forall|place: int, value: int|
                        at <= place && #[trigger] has_value(
                            names,
                            bindings,
                            place,
                            value,
                        ) implies i32::MIN <= value <= i32::MAX && fixed.contains(
                        (place as usize, value as i32),
                    ) by {
                        if place == here {
                            assert(fixed.last() == (at as usize, value as i32));
                            assert(fixed[fixed.len() - 1] == (place as usize, value as i32));
                        } else {
                            let entry = (place as usize, value as i32);
                            let i = behind.index_of(entry);
                            assert(behind.contains(entry));
                            assert(fixed[i] == behind[i]);
                        }
                    }
                },
            },
        }
    } else {
        assert forall|place: int, value: int|
            at <= place implies !#[trigger] has_value(names, bindings, place, value) by {
        }
    }
}

/// Every dimension whose name has a place feeds that place, in order, and no
/// other dimension feeds any.
pub proof fn law_named_dimensions_feed_their_places(
    names: Seq<Option<String>>,
    slots: Seq<Seq<char>>,
    count: nat,
)
    requires
        count <= names.len() <= usize::MAX,
    ensures
        forall|i: int|
            #![trigger fed(names, slots, count)[i]]
            0 <= i < fed(names, slots, count).len() ==> {
                let (dim, place) = fed(names, slots, count)[i];
                &&& dim < count
                &&& 0 <= place < slots.len()
                &&& names[dim as int] matches Some(name) && slots[place] == name@
            },
        forall|i: int, j: int|
            #![trigger fed(names, slots, count)[i], fed(names, slots, count)[j]]
            0 <= i < j < fed(names, slots, count).len() ==> fed(names, slots, count)[i].0 < fed(
                names,
                slots,
                count,
            )[j].0,
        forall|dim: int|
            0 <= dim < count && (#[trigger] names[dim] matches Some(name) && slots.contains(name@))
                ==> exists|i: int|
                0 <= i < fed(names, slots, count).len() && (#[trigger] fed(
                    names,
                    slots,
                    count,
                )[i]).0 == dim,
    decreases count,
{
    if count > 0 {
        law_named_dimensions_feed_their_places(names, slots, (count - 1) as nat);
        let before = fed(names, slots, (count - 1) as nat);
        let list = fed(names, slots, count);
        assert forall|i: int|
            #![trigger list[i]]
            0 <= i < list.len() implies {
            let (dim, place) = list[i];
            &&& dim < count
            &&& 0 <= place < slots.len()
            &&& names[dim as int] matches Some(name) && slots[place] == name@
        } by {
            if i < before.len() {
                assert(list[i] == before[i]);
            }
        }
        assert forall|i: int, j: int|
            #![trigger list[i], list[j]]
            0 <= i < j < list.len() implies list[i].0 < list[j].0 by {
            assert(list[i] == before[i]);
            if j < before.len() {
                assert(list[j] == before[j]);
            }
        }
        assert forall|dim: int|
            0 <= dim < count && (#[trigger] names[dim] matches Some(name) && slots.contains(
                name@,
            )) implies exists|i: int| 0 <= i < list.len() && (#[trigger] list[i]).0 == dim by {
            if dim == count - 1 {
                assert(list[list.len() - 1].0 == dim);
            } else {
                let i = choose|i: int| 0 <= i < before.len() && (#[trigger] before[i]).0 == dim;
                assert(list[i] == before[i]);
            }
        }
    }
}

/// The numbers of sharers that count are those of at least two with a positive
/// weight, in order.
pub proof fn law_usable_degrees_are_the_positive_ones(degrees: Seq<(u32, bool)>, count: nat)
    requires
        count <= degrees.len() <= usize::MAX,
    ensures
        forall|i: int|
            #![trigger usable(degrees, count)[i]]
            0 <= i < usable(degrees, count).len() ==> {
                let (at, degree) = usable(degrees, count)[i];
                at < count && degree >= 2 && degrees[at as int] == (degree, true)
            },
        forall|i: int, j: int|
            #![trigger usable(degrees, count)[i], usable(degrees, count)[j]]
            0 <= i < j < usable(degrees, count).len() ==> usable(degrees, count)[i].0 < usable(
                degrees,
                count,
            )[j].0,
        forall|at: int|
            0 <= at < count && (#[trigger] degrees[at]).0 >= 2 && degrees[at].1 ==> exists|i: int|
                0 <= i < usable(degrees, count).len() && (#[trigger] usable(degrees, count)[i]).0
                    == at,
    decreases count,
{
    if count > 0 {
        law_usable_degrees_are_the_positive_ones(degrees, (count - 1) as nat);
        let before = usable(degrees, (count - 1) as nat);
        let list = usable(degrees, count);
        assert forall|i: int|
            #![trigger list[i]]
            0 <= i < list.len() implies {
            let (at, degree) = list[i];
            at < count && degree >= 2 && degrees[at as int] == (degree, true)
        } by {
            if i < before.len() {
                assert(list[i] == before[i]);
            }
        }
        assert forall|i: int, j: int|
            #![trigger list[i], list[j]]
            0 <= i < j < list.len() implies list[i].0 < list[j].0 by {
            assert(list[i] == before[i]);
            if j < before.len() {
                assert(list[j] == before[j]);
            }
        }
        assert forall|at: int|
            0 <= at < count && (#[trigger] degrees[at]).0 >= 2 && degrees[at].1 implies exists|
            i: int,
        | 0 <= i < list.len() && (#[trigger] list[i]).0 == at by {
            if at == count - 1 {
                assert(list[list.len() - 1].0 == at);
            } else {
                let i = choose|i: int| 0 <= i < before.len() && (#[trigger] before[i]).0 == at;
                assert(list[i] == before[i]);
            }
        }
    }
}

/// Every interval of shared data has a job for each number of sharers, and no
/// others; private data have one job per interval.
pub proof fn law_jobs_pair_intervals_with_degrees(
    first: nat,
    count: nat,
    degrees: Seq<u32>,
    threads: u32,
    entry: int,
    degree: int,
)
    requires
        0 <= entry < count,
        0 <= degree < degrees.len() <= usize::MAX,
        first + count <= usize::MAX,
    ensures
        shared_jobs(first, count, degrees, threads).len() == count * degrees.len(),
        shared_jobs(first, count, degrees, threads).contains(
            Job {
                entry: (first + entry) as usize,
                sharing: JobSharing::Shared {
                    sharers: degrees[degree],
                    degree: Some(degree as usize),
                },
            },
        ),
        private_jobs(count).len() == count,
        private_jobs(count)[entry] == (Job { entry: entry as usize, sharing: JobSharing::Private }),
{
    let n = degrees.len() as int;
    let at = entry * n + degree;
    assert(0 <= at < count * n) by (nonlinear_arith)
        requires
            at == entry * n + degree,
            0 <= entry < count,
            0 <= degree < n,
    ;
    vstd::arithmetic::div_mod::lemma_fundamental_div_mod_converse(at, n, entry, degree);
    let jobs = shared_jobs(first, count, degrees, threads);
    assert(jobs[at] == Job {
        entry: (first + entry) as usize,
        sharing: JobSharing::Shared { sharers: degrees[degree], degree: Some(degree as usize) },
    });
}

/// A scheduler is written as its kind, with white space around it or not, and
/// behind a colon its argument; without a colon it has none.
pub proof fn law_scheduler_is_a_kind_and_an_argument(
    before: Seq<char>,
    kind: Seq<char>,
    after: Seq<char>,
    rest: Seq<char>,
)
    requires
        is_blank(before),
        is_blank(after),
        lacks(kind, ':'),
        kind.len() > 0,
        !is_space(kind[0]),
        !is_space(kind.last()),
    ensures
        kind_word(before + kind + after) == kind,
        argument(before + kind + after) is None,
        kind_word(before + kind + after + seq![':'] + rest) == kind,
        argument(before + kind + after + seq![':'] + rest) == Some(rest),
{
    let word = before + kind + after;
    assert forall|i: int| 0 <= i < word.len() implies #[trigger] word[i] != ':' by {
        if i < before.len() {
            assert(is_space(before[i]));
        } else if i < before.len() + kind.len() {
            assert(kind[i - before.len()] != ':');
        } else {
            assert(is_space(after[i - before.len() - kind.len()]));
        }
    }
    law_trimming_takes_off_white_space(before, kind, after);
    lemma_is_first_of(word, ':', word.len() as int);
    assert(word.take(word.len() as int) =~= word);
    let text = word + seq![':'] + rest;
    assert forall|i: int| 0 <= i < word.len() implies #[trigger] text[i] != ':' by {
        assert(text[i] == word[i]);
    }
    assert(text[word.len() as int] == ':');
    lemma_is_first_of(text, ':', word.len() as int);
    assert(text.take(word.len() as int) =~= word);
    assert(text.skip(word.len() as int + 1) =~= rest);
}

} // verus!
