//! The names that a subscriber gives to its filters.
use crate::text::push_decimal;
use std::sync::Arc;
use std::time::{Duration, Instant};
use vstd::prelude::*;
use vstd::string::StringExecFns;

verus! {

/// A moment of the machine's clock.
#[verifier::external_type_specification]
#[verifier::external_body]
pub struct ExInstant(std::time::Instant);

/// How many nanoseconds a duration has.
pub uninterp spec fn duration_nanos(duration: std::time::Duration) -> u128;

/// `Duration::as_nanos`: how many nanoseconds the duration has.
#[verifier::external_body]
fn as_nanos(duration: &Duration) -> (nanos: u128)
    ensures
        nanos == duration_nanos(*duration),
{
    duration.as_nanos()
}

/// `Instant::now`: the current moment, of which nothing can be said.
#[verifier::external_body]
fn now() -> (moment: Instant) {
    Instant::now()
}

/// `Instant::elapsed`: how long ago a moment was, which depends on the clock.
#[verifier::external_body]
fn time_since(moment: &Instant) -> (elapsed: Duration) {
    moment.elapsed()
}

/// `Arc::strong_count`: how many handles there are on a shared text. Other threads may make and
/// drop handles at any time; the one that is asked is among them.
#[verifier::external_body]
fn handles(text: &Arc<String>) -> (count: usize)
    ensures
        count >= 1,
{
    Arc::strong_count(text)
}

/// Why a name is not taken.
#[derive(Debug, Clone, Copy, PartialEq, Eq, Structural)]
pub enum FilterNameError {
    /// The name is longer than allowed, in bytes.
    Oversized { limit: usize, size: usize },
}

impl FilterNameError {
    /// The error in words.
    pub open spec fn text(self) -> Seq<char> {
        match self {
            FilterNameError::Oversized { limit, size } => "oversized filter name (max allowed size "@
                + crate::text::decimal(limit as nat) + "), found "@ + crate::text::decimal(
                size as nat,
            ),
        }
    }

    /// The error in words.
    pub fn message(&self) -> (message: String)
        ensures
            message@ == self.text(),
    {
        match self {
            FilterNameError::Oversized { limit, size } => {
                let mut message = String::from_str("oversized filter name (max allowed size ");
                push_decimal(&mut message, *limit as u64);
                message.append("), found ");
                push_decimal(&mut message, *size as u64);
                message
            },
        }
    }
}

/// A name that is kept once and shared.
#[derive(Debug, Eq, Hash)]
pub struct FilterName(pub Arc<String>);

/// Names are equal by their texts, also where they do not share one.
impl PartialEq for FilterName {
    fn eq(&self, other: &Self) -> (equal: bool) {
        *self.0 == *other.0
    }
}

impl vstd::std_specs::cmp::PartialEqSpecImpl for FilterName {
    open spec fn obeys_eq_spec() -> bool {
        true
    }

    open spec fn eq_spec(&self, other: &Self) -> bool {
        self@ == other@
    }
}

impl View for FilterName {
    type V = Seq<char>;

    open spec fn view(&self) -> Seq<char> {
        (*self.0)@
    }
}

impl Clone for FilterName {
    fn clone(&self) -> (copy: Self)
        ensures
            copy == *self,
    {
        FilterName(Arc::clone(&self.0))
    }
}

impl std::ops::Deref for FilterName {
    type Target = str;

    fn deref(&self) -> (name: &str)
        ensures
            name@ == self@,
    {
        self.0.as_str()
    }
}

impl std::borrow::Borrow<str> for FilterName {
    fn borrow(&self) -> (name: &str)
        ensures
            str::view(name) == self@,
    {
        self.0.as_str()
    }
}

impl AsRef<str> for FilterName {
    fn as_ref(&self) -> (name: &str)
        ensures
            name@ == self@,
    {
        self.0.as_str()
    }
}

/// One handle alone is left.
pub fn is_last_handle(count: usize) -> (last: bool)
    ensures
        last == (count == 1),
{
    count == 1
}

/// For each name whether one handle alone is left on it.
pub open spec fn last_handles(counts: Seq<usize>) -> Seq<bool> {
    counts.map_values(|count: usize| count == 1)
}

/// For each name whether one handle alone is left on it.
fn flag_last_handles(counts: &Vec<usize>) -> (flags: Vec<bool>)
    ensures
        flags@ == last_handles(counts@),
{
    let mut flags: Vec<bool> = Vec::new();
    let count: usize = counts.len();
    for i in 0..count
        invariant
            count == counts@.len(),
            flags@ == last_handles(counts@.take(i as int)),
    {
        flags.push(is_last_handle(counts[i]));
        assert(last_handles(counts@.take(i + 1)) =~= last_handles(counts@.take(i as int)).push(
            counts@[i as int] == 1,
        ));
    }
    assert(counts@.take(count as int) =~= counts@);
    flags
}

impl FilterName {
    /// A name of its own.
    pub fn new(name: &str) -> (made: Self)
        ensures
            made@ == name@,
    {
        FilterName(Arc::new(name.to_owned()))
    }

    /// Whether nobody else holds the name. Other threads may take it up or drop it at any time,
    /// so nothing can be promised of the answer.
    pub fn is_uniq(&self) -> (uniq: bool) {
        is_last_handle(handles(&self.0))
    }
}

/// The names that are not flagged, in their order.
pub open spec fn unflagged(names: Seq<Seq<char>>, flags: Seq<bool>) -> Seq<Seq<char>>
    decreases names.len(),
{
    if names.len() == 0 || flags.len() < names.len() {
        Seq::empty()
    } else {
        let rest = unflagged(names.drop_last(), flags);
        if flags[names.len() - 1] {
            rest
        } else {
            rest.push(names.last())
        }
    }
}

/// The names of a subscriber's filters.
#[derive(Debug)]
pub struct FilterNames {
    name_size_limit: usize,
    names: Vec<FilterName>,
    names_size_limit: usize,
    cleanup_ts: Instant,
    cleanup_interval: Duration,
}

/// What a list of names says.
spec fn texts(names: Seq<FilterName>) -> Seq<Seq<char>> {
    names.map_values(|name: FilterName| name@)
}

/// The names of a subscriber, and what is allowed of them.
#[verifier::ext_equal]
pub struct NamesView {
    /// The names in the order in which they came.
    pub names: Seq<Seq<char>>,
    /// How long a name may be, in bytes.
    pub name_size_limit: usize,
    /// How many names may be kept before they are cleaned up.
    pub names_size_limit: usize,
    /// How long they are kept at least from one clean-up to the next, in nanoseconds.
    pub cleanup_nanos: u128,
}

impl View for FilterNames {
    type V = NamesView;

    closed spec fn view(&self) -> NamesView {
        NamesView {
            names: texts(self.names@),
            name_size_limit: self.name_size_limit,
            names_size_limit: self.names_size_limit,
            cleanup_nanos: duration_nanos(self.cleanup_interval),
        }
    }
}

/// A clean-up is due: there are too many names, and the last one is long enough ago.
pub fn is_cleanup_due(
    count: usize,
    names_size_limit: usize,
    elapsed_nanos: u128,
    cleanup_nanos: u128,
) -> (due: bool)
    ensures
        due == (count > names_size_limit && elapsed_nanos > cleanup_nanos),
{
    count > names_size_limit && elapsed_nanos > cleanup_nanos
}

impl FilterNames {
    /// No names yet.
    pub fn new(name_size_limit: usize, names_size_limit: usize, cleanup_interval: Duration) -> (
        names: Self)
        ensures
            names@ == (NamesView {
                names: Seq::empty(),
                name_size_limit,
                names_size_limit,
                cleanup_nanos: duration_nanos(cleanup_interval),
            }),
            names@.wf(),
    {
        let names = FilterNames {
            name_size_limit,
            names: Vec::new(),
            names_size_limit,
            cleanup_ts: now(),
            cleanup_interval,
        };
        assert(texts(names.names@) =~= Seq::empty());
        names
    }

    /// When the names were last cleaned up, or made.
    pub closed spec fn cleaned_at(&self) -> Instant {
        self.cleanup_ts
    }

    /// These are the names after a clean-up of `before` was tried at the time `moment`, with
    /// `elapsed_nanos` gone by since the last one and `counts` handles on the names.
    pub open spec fn cleaned_from(
        &self,
        before: &FilterNames,
        elapsed_nanos: u128,
        counts: Seq<usize>,
        moment: Instant,
    ) -> bool {
        &&& self@ == before@.cleaned(elapsed_nanos, last_handles(counts))
        &&& self.cleaned_at() == if before@.is_due(elapsed_nanos) {
            moment
        } else {
            before.cleaned_at()
        }
    }

    /// Drops the names that nobody else holds, if there are too many and the last clean-up is
    /// long enough ago. How many handles there are, and what time it is, depends on the machine;
    /// `clean_counted` says what becomes of the names for each answer.
    pub fn try_clean(&mut self)
        ensures
            exists|elapsed_nanos: u128, counts: Seq<usize>, moment: Instant|
                {
                    &&& counts.len() == old(self)@.names.len()
                    &&& forall|i: int| 0 <= i < counts.len() ==> #[trigger] counts[i] >= 1
                    &&& #[trigger] final(self).cleaned_from(
                        old(self),
                        elapsed_nanos,
                        counts,
                        moment,
                    )
                },
            old(self)@.names.len() <= old(self)@.names_size_limit ==> final(self)@ == old(self)@
                && final(self).cleaned_at() == old(self).cleaned_at(),
            old(self)@.wf() ==> final(self)@.wf(),
    {
        let elapsed: u128 = as_nanos(&time_since(&self.cleanup_ts));
        let counts: Vec<usize> = self.count_handles();
        let moment: Instant = now();
        self.clean_counted(elapsed, &counts, moment);
        assert(self.cleaned_from(old(self), elapsed, counts@, moment));
    }

    /// Drops the names of which one handle alone is left, if there are too many names and the
    /// last clean-up is more than the interval ago; `moment` is then the time of the last one.
    pub fn clean_counted(&mut self, elapsed_nanos: u128, counts: &Vec<usize>, moment: Instant)
        requires
            counts@.len() == old(self)@.names.len(),
        ensures
            final(self)@ == old(self)@.cleaned(
                elapsed_nanos,
                counts@.map_values(|count: usize| count == 1),
            ),
            final(self).cleaned_at() == if old(self)@.is_due(elapsed_nanos) {
                moment
            } else {
                old(self).cleaned_at()
            },
            old(self)@.wf() ==> final(self)@.wf(),
    {
        let interval: u128 = as_nanos(&self.cleanup_interval);
        if is_cleanup_due(self.names.len(), self.names_size_limit, elapsed_nanos, interval) {
            let uniq: Vec<bool> = flag_last_handles(counts);
            self.drop_flagged(&uniq);
            self.cleanup_ts = moment;
        }
    }

    /// For each name how many handles there are on it.
    fn count_handles(&self) -> (counts: Vec<usize>)
        ensures
            counts@.len() == self@.names.len(),
            forall|i: int| 0 <= i < counts@.len() ==> #[trigger] counts@[i] >= 1,
    {
        let mut counts: Vec<usize> = Vec::new();
        let count: usize = self.names.len();
        for i in 0..count
            invariant
                count == self.names@.len(),
                counts@.len() == i,
                forall|j: int| 0 <= j < i ==> #[trigger] counts@[j] >= 1,
        {
            counts.push(handles(&self.names[i].0));
        }
        counts
    }

    /// Drops the names that are flagged.
    pub fn drop_flagged(&mut self, flags: &Vec<bool>)
        requires
            flags@.len() == old(self)@.names.len(),
        ensures
            final(self)@ == (NamesView { names: unflagged(old(self)@.names, flags@), ..old(self)@ }),
            final(self).cleaned_at() == old(self).cleaned_at(),
            old(self)@.wf() ==> final(self)@.wf(),
    {
        let ghost all = self@.names;
        let mut kept: Vec<FilterName> = Vec::new();
        let count: usize = self.names.len();
        assert(texts(kept@) =~= unflagged(all.take(0), flags@));
        for i in 0..count
            invariant
                count == self.names@.len() == flags@.len(),
                self.names@ == old(self).names@,
                self.name_size_limit == old(self).name_size_limit,
                self.names_size_limit == old(self).names_size_limit,
                self.cleanup_interval == old(self).cleanup_interval,
                self.cleanup_ts == old(self).cleanup_ts,
                all == texts(self.names@),
                texts(kept@) == unflagged(all.take(i as int), flags@),
        {
            proof {
                assert(all.take(i + 1).drop_last() =~= all.take(i as int));
                assert(all.take(i + 1).last() == self.names@[i as int]@);
            }
            if !flags[i] {
                let ghost before = kept@;
                kept.push(self.names[i].clone());
                assert(texts(kept@) =~= texts(before).push(self.names@[i as int]@));
            }
        }
        assert(all.take(count as int) =~= all);
        self.names = kept;
        proof {
            lemma_unflagged_keeps_names_apart(all, flags@);
        }
    }

    /// The shared name, if it is kept or not too long; a name that is not kept yet is kept from
    /// now on.
    pub fn get(&mut self, name: &str) -> (found: Result<FilterName, FilterNameError>)
        ensures
            final(self)@ == old(self)@.asked(name@),
            final(self).cleaned_at() == old(self).cleaned_at(),
            old(self)@.takes(name@) ==> (found matches Ok(shared) && shared@ == name@),
            !old(self)@.takes(name@) ==> found == Err::<FilterName, FilterNameError>(
                FilterNameError::Oversized {
                    limit: old(self)@.name_size_limit,
                    size: size_of(name@) as usize,
                },
            ),
            old(self)@.wf() ==> final(self)@.wf(),
    {
        let wanted: String = name.to_owned();
        let count: usize = self.names.len();
        for i in 0..count
            invariant
                count == self.names@.len(),
                wanted@ == name@,
                *self == *old(self),
                forall|j: int| 0 <= j < i ==> (#[trigger] self.names@[j])@ != name@,
        {
            if *self.names[i].0 == wanted {
                assert(self@.names[i as int] == name@);
                return Ok(self.names[i].clone());
            }
        }
        assert(!self@.names.contains(name@));
        let size: usize = name.as_bytes().len();
        if size > self.name_size_limit {
            return Err(FilterNameError::Oversized { limit: self.name_size_limit, size });
        }
        let shared = FilterName::new(name);
        self.names.push(shared.clone());
        assert(self@.names =~= old(self)@.names.push(name@));
        Ok(shared)
    }
}

impl NamesView {
    /// What holds of every subscriber's names: none is kept twice, and none is too long.
    pub open spec fn wf(self) -> bool {
        &&& self.names.no_duplicates()
        &&& forall|i: int|
            0 <= i < self.names.len() ==> size_of(#[trigger] self.names[i]) <= self.name_size_limit
    }
}

impl NamesView {
    /// A name is taken if it is kept already or not too long.
    pub open spec fn takes(self, name: Seq<char>) -> bool {
        self.names.contains(name) || size_of(name) <= self.name_size_limit
    }

    /// The names after a name was asked for: one that is taken is kept.
    pub open spec fn asked(self, name: Seq<char>) -> NamesView {
        if self.takes(name) && !self.names.contains(name) {
            NamesView { names: self.names.push(name), ..self }
        } else {
            self
        }
    }

    /// A clean-up is due: there are too many names, and the last one is long enough ago.
    pub open spec fn is_due(self, elapsed_nanos: u128) -> bool {
        self.names.len() > self.names_size_limit && elapsed_nanos > self.cleanup_nanos
    }

    /// The names after a clean-up was tried: if it is due, the flagged names are gone.
    pub open spec fn cleaned(self, elapsed_nanos: u128, uniq: Seq<bool>) -> NamesView {
        if self.is_due(elapsed_nanos) {
            NamesView { names: unflagged(self.names, uniq), ..self }
        } else {
            self
        }
    }

    /// A name that is taken is kept once: asking for it again changes nothing, and it is taken
    /// again. The limit never changes.
    pub proof fn lemma_name_is_kept_once(self, name: Seq<char>)
        ensures
            self.asked(name).asked(name) == self.asked(name),
            self.asked(name).takes(name) == self.takes(name),
            self.asked(name).name_size_limit == self.name_size_limit,
            self.takes(name) ==> self.asked(name).names.contains(name),
    {
        if self.takes(name) && !self.names.contains(name) {
            let after = self.names.push(name);
            assert(after[after.len() - 1] == name);
        }
    }
}

/// How many bytes a name takes.
pub open spec fn size_of(name: Seq<char>) -> nat {
    vstd::utf8::encode_utf8(name).len()
}

/// A clean-up leaves only names that were there, and none twice if none was there twice.
pub proof fn lemma_unflagged_keeps_names_apart(names: Seq<Seq<char>>, flags: Seq<bool>)
    ensures
        forall|k: int|
            0 <= k < unflagged(names, flags).len() ==> names.contains(
                #[trigger] unflagged(names, flags)[k],
            ),
        names.no_duplicates() ==> unflagged(names, flags).no_duplicates(),
    decreases names.len(),
{
    if names.len() > 0 && flags.len() >= names.len() {
        let before = names.drop_last();
        let rest = unflagged(before, flags);
        let all = unflagged(names, flags);
        lemma_unflagged_keeps_names_apart(before, flags);
        assert forall|k: int| 0 <= k < all.len() implies names.contains(#[trigger] all[k]) by {
            if k < rest.len() {
                assert(before.contains(rest[k]));
                let i = choose|i: int| 0 <= i < before.len() && before[i] == rest[k];
                assert(names[i] == all[k]);
            } else {
                assert(names[names.len() - 1] == all[k]);
            }
        }
        if names.no_duplicates() {
            assert(before.no_duplicates());
            assert forall|i: int, j: int| 0 <= i < j < all.len() implies all[i] != all[j] by {
                if j >= rest.len() {
                    assert(before.contains(rest[i]));
                    let k = choose|k: int| 0 <= k < before.len() && before[k] == rest[i];
                    assert(names[k] != names[names.len() - 1]);
                }
            }
        }
    }
}

/// A name that somebody else holds survives a clean-up.
pub proof fn lemma_held_name_survives(names: Seq<Seq<char>>, flags: Seq<bool>, at: int)
    requires
        flags.len() >= names.len(),
        0 <= at < names.len(),
        !flags[at],
    ensures
        unflagged(names, flags).contains(names[at]),
    decreases names.len(),
{
    let all = unflagged(names, flags);
    if at == names.len() - 1 {
        assert(all.last() == names[at]);
    } else {
        let rest = unflagged(names.drop_last(), flags);
        lemma_held_name_survives(names.drop_last(), flags, at);
        let k = choose|k: int| 0 <= k < rest.len() && rest[k] == names[at];
        assert(all[k] == names[at]);
    }
}

/// A name that somebody holds beside the list is kept over any clean-up, so that asking for it
/// again is answered from the list and changes nothing.
pub proof fn lemma_held_name_is_found_again(
    view: NamesView,
    elapsed_nanos: u128,
    counts: Seq<usize>,
    at: int,
)
    requires
        counts.len() == view.names.len(),
        0 <= at < view.names.len(),
        counts[at] >= 2,
    ensures
        ({
            let after = view.cleaned(elapsed_nanos, last_handles(counts));
            &&& after.names.contains(view.names[at])
            &&& after.takes(view.names[at])
            &&& after.asked(view.names[at]) == after
        }),
{
    if view.is_due(elapsed_nanos) {
        lemma_held_name_survives(view.names, last_handles(counts), at);
    }
}

/// A name of which the list has the only handle is dropped by a clean-up that is due.
pub proof fn lemma_unheld_name_is_dropped(
    view: NamesView,
    elapsed_nanos: u128,
    counts: Seq<usize>,
    at: int,
)
    requires
        view.wf(),
        view.is_due(elapsed_nanos),
        counts.len() == view.names.len(),
        0 <= at < view.names.len(),
        counts[at] == 1,
    ensures
        !view.cleaned(elapsed_nanos, last_handles(counts)).names.contains(view.names[at]),
{
    lemma_flagged_name_is_gone(view.names, last_handles(counts), at);
}

/// A flagged name is gone, if it was there once.
proof fn lemma_flagged_name_is_gone(names: Seq<Seq<char>>, flags: Seq<bool>, at: int)
    requires
        names.no_duplicates(),
        flags.len() >= names.len(),
        0 <= at < names.len(),
        flags[at],
    ensures
        !unflagged(names, flags).contains(names[at]),
    decreases names.len(),
{
    let before = names.drop_last();
    let rest = unflagged(before, flags);
    let all = unflagged(names, flags);
    assert(before.no_duplicates());
    lemma_unflagged_keeps_names_apart(before, flags);
    if at < names.len() - 1 {
        assert(before[at] == names[at]);
        lemma_flagged_name_is_gone(before, flags, at);
    }
    assert forall|k: int| 0 <= k < all.len() implies all[k] != names[at] by {
        if k < rest.len() {
            assert(all[k] == rest[k]);
            if at < names.len() - 1 {
                assert(rest.contains(rest[k]));
            } else {
                assert(before.contains(rest[k]));
                let j = choose|j: int| 0 <= j < before.len() && before[j] == rest[k];
                assert(names[j] != names[at]);
            }
        } else {
            assert(all[k] == names[names.len() - 1]);
        }
    }
}

/// Two names are equal exactly where their texts are.
pub proof fn lemma_names_are_equal_by_text(name: FilterName, other: FilterName)
    ensures
        vstd::std_specs::cmp::PartialEqSpec::eq_spec(&name, &other) <==> name@ == other@,
{
}

} // verus!
