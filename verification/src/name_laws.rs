//! What becomes of the names of filters.
use crate::names::{FilterName, FilterNameError, FilterNames, NamesView};
use std::time::Instant;
use vstd::prelude::*;

verus! {

/// How many bytes a name takes.
pub open spec fn bytes_of(name: Seq<char>) -> nat {
    vstd::utf8::encode_utf8(name).len()
}

/// What is allowed of the names stays as it is.
pub open spec fn same_limits(before: NamesView, after: NamesView) -> bool {
    &&& after.name_size_limit == before.name_size_limit
    &&& after.names_size_limit == before.names_size_limit
    &&& after.cleanup_nanos == before.cleanup_nanos
}

/// A name that is kept is given out again, whatever its length. One that is not kept is kept from
/// now on behind the others, unless it takes more bytes than a name may: then nothing changes,
/// and the error says how many it may take and how many it does.
pub proof fn lemma_name_is_given_out()
    ensures
        forall|names: &mut FilterNames, name: &str, found: Result<FilterName, FilterNameError>|
            #[trigger]
            call_ensures(FilterNames::get, (names, name), found) ==> {
                let before = (*names)@;
                let after = final(names)@;
                &&& same_limits(before, after)
                &&& final(names).cleaned_at() == (*names).cleaned_at()
                &&& match found {
                    Ok(given) => {
                        &&& given@ == name@
                        &&& if before.names.contains(name@) {
                            after.names == before.names
                        } else {
                            &&& bytes_of(name@) <= before.name_size_limit
                            &&& after.names == before.names.push(name@)
                        }
                    },
                    Err(FilterNameError::Oversized { limit, size }) => {
                        &&& limit == before.name_size_limit
                        &&& bytes_of(name@) <= usize::MAX ==> size == bytes_of(name@)
                        &&& bytes_of(name@) > before.name_size_limit
                        &&& !before.names.contains(name@)
                        &&& after.names == before.names
                    },
                }
            },
{
}

/// Which of the first names are held by somebody beside the list, by their places.
spec fn held_places(counts: Seq<usize>) -> Seq<int>
    decreases counts.len(),
{
    if counts.len() == 0 {
        Seq::empty()
    } else {
        let before = held_places(counts.drop_last());
        if counts.last() == 1 {
            before
        } else {
            before.push(counts.len() - 1)
        }
    }
}

/// `places` are the places of the names that are kept: they rise, and lead to all names of which
/// there is more than one handle, and to no others.
pub open spec fn keeps_held(
    before: Seq<Seq<char>>,
    counts: Seq<usize>,
    after: Seq<Seq<char>>,
    places: Seq<int>,
) -> bool {
    &&& places.len() == after.len()
    &&& forall|k: int|
        0 <= k < places.len() ==> {
            &&& 0 <= #[trigger] places[k] < before.len()
            &&& after[k] == before[places[k]]
            &&& counts[places[k]] != 1
        }
    &&& forall|k: int, l: int|
        0 <= k < l < places.len() ==> #[trigger] places[k] < #[trigger] places[l]
    &&& forall|i: int|
        0 <= i < before.len() && #[trigger] counts[i] != 1 ==> places.contains(i)
}

/// The names of which there is more than one handle.
proof fn lemma_keeps_held(names: Seq<Seq<char>>, counts: Seq<usize>, all: Seq<bool>)
    requires
        counts.len() == names.len(),
        all.len() >= names.len(),
        forall|i: int| 0 <= i < names.len() ==> #[trigger] all[i] == (counts[i] == 1),
    ensures
        keeps_held(names, counts, crate::names::unflagged(names, all), held_places(counts)),
    decreases names.len(),
{
    if names.len() > 0 {
        let n = names.len() - 1;
        let rest = names.drop_last();
        let fewer = counts.drop_last();
        let before = held_places(fewer);
        let places = held_places(counts);
        let after = crate::names::unflagged(names, all);
        lemma_keeps_held(rest, fewer, all);
        assert(all[n] == (counts[n] == 1));
        assert forall|k: int| 0 <= k < places.len() implies {
            &&& 0 <= #[trigger] places[k] < names.len()
            &&& after[k] == names[places[k]]
            &&& counts[places[k]] != 1
        } by {
            if k < before.len() {
                assert(before[k] == places[k]);
                assert(rest[before[k]] == names[places[k]]);
                assert(fewer[before[k]] == counts[places[k]]);
            }
        }
        assert forall|k: int, l: int| 0 <= k < l < places.len() implies #[trigger] places[k]
            < #[trigger] places[l] by {
            assert(before[k] == places[k]);
            if l < before.len() {
                assert(before[l] == places[l]);
            }
        }
        assert forall|i: int| 0 <= i < names.len() && #[trigger] counts[i]
            != 1 implies places.contains(i) by {
            if i < n {
                assert(fewer[i] == counts[i]);
                let k = choose|k: int| 0 <= k < before.len() && before[k] == i;
                assert(places[k] == i);
            } else {
                assert(places[places.len() - 1] == i);
            }
        }
    }
}

/// Where there are more names than there may be, and more than the interval has gone by since
/// the last clean-up, the names stay, in their order, of which there is more than one handle,
/// the others go, and the next interval begins. Else nothing changes.
pub proof fn lemma_names_are_cleaned_up()
    ensures
        forall|names: &mut FilterNames, elapsed: u128, counts: &Vec<usize>, moment: Instant|
            #[trigger]
            call_ensures(FilterNames::clean_counted, (names, elapsed, counts, moment), ())
                && counts@.len() == (*names)@.names.len() ==> {
                let before = (*names)@;
                let after = final(names)@;
                &&& same_limits(before, after)
                &&& if before.names.len() > before.names_size_limit && elapsed
                    > before.cleanup_nanos {
                    &&& final(names).cleaned_at() == moment
                    &&& exists|places: Seq<int>|
                        keeps_held(before.names, counts@, after.names, places)
                } else {
                    &&& final(names).cleaned_at() == (*names).cleaned_at()
                    &&& after.names == before.names
                }
            },
{
    assert forall|names: &mut FilterNames, elapsed: u128, counts: &Vec<usize>, moment: Instant|
        #[trigger]
        call_ensures(FilterNames::clean_counted, (names, elapsed, counts, moment), ())
            && counts@.len() == (*names)@.names.len() implies ({
        let before = (*names)@;
        let after = final(names)@;
        &&& same_limits(before, after)
        &&& if before.names.len() > before.names_size_limit && elapsed > before.cleanup_nanos {
            &&& final(names).cleaned_at() == moment
            &&& exists|places: Seq<int>| keeps_held(before.names, counts@, after.names, places)
        } else {
            &&& final(names).cleaned_at() == (*names).cleaned_at()
            &&& after.names == before.names
        }
    }) by {
        let before = (*names)@;
        let after = final(names)@;
        if before.names.len() > before.names_size_limit && elapsed > before.cleanup_nanos {
            let flags = counts@.map_values(|count: usize| count == 1);
            lemma_keeps_held(before.names, counts@, flags);
            assert(after.names == crate::names::unflagged(before.names, flags));
            assert(keeps_held(before.names, counts@, after.names, held_places(counts@)));
        }
    }
}

/// The names that are flagged go, and the others stay in their order; nothing else changes.
pub proof fn lemma_flagged_names_go()
    ensures
        forall|names: &mut FilterNames, flags: &Vec<bool>| #[trigger]
            call_ensures(FilterNames::drop_flagged, (names, flags), ()) && flags@.len() == (
            *names)@.names.len() ==> {
                let before = (*names)@;
                let after = final(names)@;
                let counts = flags@.map_values(
                    |flag: bool|
                        if flag {
                            1usize
                        } else {
                            2usize
                        },
                );
                &&& same_limits(before, after)
                &&& final(names).cleaned_at() == (*names).cleaned_at()
                &&& exists|places: Seq<int>|
                    keeps_held(before.names, counts, after.names, places)
            },
{
    assert forall|names: &mut FilterNames, flags: &Vec<bool>| #[trigger]
        call_ensures(FilterNames::drop_flagged, (names, flags), ()) && flags@.len() == (
        *names)@.names.len() implies ({
        let before = (*names)@;
        let after = final(names)@;
        let counts = flags@.map_values(
            |flag: bool|
                if flag {
                    1usize
                } else {
                    2usize
                },
        );
        &&& same_limits(before, after)
        &&& final(names).cleaned_at() == (*names).cleaned_at()
        &&& exists|places: Seq<int>| keeps_held(before.names, counts, after.names, places)
    }) by {
        let before = (*names)@;
        let after = final(names)@;
        let counts = flags@.map_values(
            |flag: bool|
                if flag {
                    1usize
                } else {
                    2usize
                },
        );
        lemma_keeps_held(before.names, counts, flags@);
        assert(keeps_held(before.names, counts, after.names, held_places(counts)));
    }
}

/// However many handles there are and whatever time it is, a clean-up keeps the limits, leaves no
/// name that was not there, and leaves everything as it is where there are not too many names.
pub proof fn lemma_clean_up_adds_nothing()
    ensures
        forall|names: &mut FilterNames| #[trigger]
            call_ensures(FilterNames::try_clean, (names,), ()) ==> {
                let before = (*names)@;
                let after = final(names)@;
                &&& same_limits(before, after)
                &&& forall|k: int|
                    0 <= k < after.names.len() ==> before.names.contains(
                        #[trigger] after.names[k],
                    )
                &&& before.names.len() <= before.names_size_limit ==> after.names == before.names
                    && final(names).cleaned_at() == (*names).cleaned_at()
            },
{
    assert forall|names: &mut FilterNames| #[trigger]
        call_ensures(FilterNames::try_clean, (names,), ()) implies ({
        let before = (*names)@;
        let after = final(names)@;
        &&& same_limits(before, after)
        &&& forall|k: int|
            0 <= k < after.names.len() ==> before.names.contains(#[trigger] after.names[k])
        &&& before.names.len() <= before.names_size_limit ==> after.names == before.names
            && final(names).cleaned_at() == (*names).cleaned_at()
    }) by {
        let before = (*names)@;
        let after = final(names)@;
        let (elapsed, counts, moment) = choose|elapsed: u128, counts: Seq<usize>, moment: Instant|
            {
                &&& counts.len() == before.names.len()
                &&& forall|i: int| 0 <= i < counts.len() ==> #[trigger] counts[i] >= 1
                &&& #[trigger] final(names).cleaned_from(names, elapsed, counts, moment)
            };
        let flags = crate::names::last_handles(counts);
        crate::names::lemma_unflagged_keeps_names_apart(before.names, flags);
        assert(after == before.cleaned(elapsed, flags));
        assert forall|k: int| 0 <= k < after.names.len() implies before.names.contains(
            #[trigger] after.names[k],
        ) by {}
    }
}

/// A name says what it was made of, and so does a copy of it; the error says what is allowed and
/// what was found.
pub proof fn lemma_names_say_what_they_are(
    text: &str,
    name: FilterName,
    copy: FilterName,
    error: &FilterNameError,
    message: String,
)
    requires
        call_ensures(FilterName::new, (text,), name),
        call_ensures(FilterName::clone, (&name,), copy),
        call_ensures(FilterNameError::message, (error,), message),
    ensures
        name@ == text@,
        copy@ == text@,
        error matches FilterNameError::Oversized { limit, size } && message@
            == "oversized filter name (max allowed size "@ + crate::text::decimal(*limit as nat)
            + "), found "@ + crate::text::decimal(*size as nat),
{
}

/// A clean-up is due where there are too many names and the last one is long enough ago, and a
/// handle is the last where there is one.
pub proof fn lemma_when_names_go(
    count: usize,
    limit: usize,
    elapsed: u128,
    interval: u128,
    due: bool,
    last: bool,
)
    requires
        call_ensures(crate::names::is_cleanup_due, (count, limit, elapsed, interval), due),
        call_ensures(crate::names::is_last_handle, (count,), last),
    ensures
        due <==> limit < count && interval < elapsed,
        last <==> count == 1,
{
}

} // verus!
