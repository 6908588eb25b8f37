//! The routing policy: which of several candidate models takes the next turn.
//!
//! 1. Warm start: the first candidate with too few observations.
//! 2. Exploration: with probability epsilon, a candidate drawn at random.
//! 3. Exploitation: the candidate with the highest success rate, and among
//!    equal rates the one with the lower average latency.

use crate::binary64::smoothed;
use crate::binary64::Binary64;
use crate::rng::is_unit_fraction;
use crate::rng::RandomSource;
use crate::text::same_text;
use vstd::prelude::*;

verus! {

/// Coarse class of a prompt by its length.
#[derive(Debug, Clone, Copy, PartialEq, Eq, PartialOrd, Ord, Hash, Structural)]
pub enum PromptBucket {
    Short,
    Medium,
    Long,
}

impl PromptBucket {
    /// The class of a prompt of so many characters.
    pub open spec fn of_length(char_count: nat) -> PromptBucket {
        if char_count < 512 {
            PromptBucket::Short
        } else if char_count < 6_000 {
            PromptBucket::Medium
        } else {
            PromptBucket::Long
        }
    }

    /// The name under which a class is stored.
    pub open spec fn name(self) -> Seq<char> {
        match self {
            PromptBucket::Short => "short"@,
            PromptBucket::Medium => "medium"@,
            PromptBucket::Long => "long"@,
        }
    }

    /// The place of a class: shorter prompts come first.
    pub open spec fn rank(self) -> int {
        match self {
            PromptBucket::Short => 0,
            PromptBucket::Medium => 1,
            PromptBucket::Long => 2,
        }
    }

    pub fn from_prompt_chars(char_count: usize) -> (r: PromptBucket)
        ensures
            r == PromptBucket::of_length(char_count as nat),
    {
        if char_count < 512 {
            PromptBucket::Short
        } else if char_count < 6_000 {
            PromptBucket::Medium
        } else {
            PromptBucket::Long
        }
    }

    pub fn as_str(self) -> (r: &'static str)
        ensures
            r@ == self.name(),
    {
        match self {
            PromptBucket::Short => "short",
            PromptBucket::Medium => "medium",
            PromptBucket::Long => "long",
        }
    }

    /// The class with the given name.
    pub fn parse(value: &str) -> (r: Option<PromptBucket>)
        ensures
            match r {
                Some(bucket) => bucket.name() == value@,
                None => forall|bucket: PromptBucket| #[trigger] bucket.name() != value@,
            },
    {
        if same_text(value, "short") {
            Some(PromptBucket::Short)
        } else if same_text(value, "medium") {
            Some(PromptBucket::Medium)
        } else if same_text(value, "long") {
            Some(PromptBucket::Long)
        } else {
            None
        }
    }

    /// The place of a class: shorter prompts come first.
    pub fn position(self) -> (r: u8)
        ensures
            r == self.rank(),
    {
        match self {
            PromptBucket::Short => 0,
            PromptBucket::Medium => 1,
            PromptBucket::Long => 2,
        }
    }
}

/// No two classes share a name, so the stored name gives the class back.
pub proof fn lemma_bucket_names_differ(a: PromptBucket, b: PromptBucket)
    requires
        a.name() == b.name(),
    ensures
        a == b,
{
    reveal_strlit("short");
    reveal_strlit("medium");
    reveal_strlit("long");
    assert("short"@.len() == 5 && "medium"@.len() == 6 && "long"@.len() == 4);
}

/// The names under which the classes are stored.
pub proof fn lemma_bucket_names()
    ensures
        PromptBucket::Short.name() == "short"@,
        PromptBucket::Medium.name() == "medium"@,
        PromptBucket::Long.name() == "long"@,
{
}

/// Prompts are short below 512 characters, long from 6000 on, and of medium length
/// between the two.
pub proof fn lemma_bucket_bounds(char_count: nat)
    ensures
        PromptBucket::of_length(char_count) == PromptBucket::Short <==> char_count < 512,
        PromptBucket::of_length(char_count) == PromptBucket::Medium <==> 512 <= char_count < 6_000,
        PromptBucket::of_length(char_count) == PromptBucket::Long <==> char_count >= 6_000,
{
}

/// A longer prompt is never put in a class of shorter ones.
pub proof fn lemma_bucket_grows_with_length(shorter: nat, longer: nat)
    requires
        shorter <= longer,
    ensures
        PromptBucket::of_length(shorter).rank() <= PromptBucket::of_length(longer).rank(),
{
}

/// Why the policy chose a model.
#[derive(Debug, Clone, Copy, PartialEq, Eq, Structural)]
pub enum SelectionReason {
    WarmStart,
    Explore,
    Exploit,
}

impl SelectionReason {
    /// The name under which a reason is shown.
    pub open spec fn name(self) -> Seq<char> {
        match self {
            SelectionReason::WarmStart => "warm_start"@,
            SelectionReason::Explore => "explore"@,
            SelectionReason::Exploit => "exploit"@,
        }
    }

    pub fn as_str(self) -> (r: &'static str)
        ensures
            r@ == self.name(),
    {
        match self {
            SelectionReason::WarmStart => "warm_start",
            SelectionReason::Explore => "explore",
            SelectionReason::Exploit => "exploit",
        }
    }
}

/// One routing decision.
#[derive(Debug, Clone, PartialEq, Eq)]
pub struct Selection {
    pub model: String,
    pub bucket: PromptBucket,
    pub reason: SelectionReason,
}

/// What the policy reads of one candidate.
#[derive(Debug, Clone, Copy, PartialEq, Eq, Structural)]
pub struct Tally {
    pub successes: u64,
    pub failures: u64,
    pub total_latency_ms: u64,
}

impl Tally {
    /// The number of observations.
    pub open spec fn observations(self) -> nat {
        (self.successes + self.failures) as nat
    }

    /// Whether the number of observations fits a machine word.
    pub open spec fn countable(self) -> bool {
        self.observations() <= u64::MAX
    }

    /// The success rate `(successes + 1) / (observations + 2)`, which is one
    /// half where nothing was observed.
    pub open spec fn rate(self) -> Binary64 {
        smoothed(self.successes as nat, self.observations())
    }

    /// The whole milliseconds that an observation took on average.
    pub open spec fn latency(self) -> nat {
        if self.observations() == 0 {
            0
        } else {
            self.total_latency_ms as nat / self.observations()
        }
    }

    /// Whether this candidate goes before the other: a higher rate, or the same
    /// rate and a lower latency.
    pub open spec fn beats(self, other: Tally) -> bool {
        ||| other.rate().lt(self.rate())
        ||| !self.rate().lt(other.rate()) && self.latency() < other.latency()
    }

    pub fn samples(&self) -> (r: u64)
        requires
            self.countable(),
        ensures
            r == self.observations(),
    {
        self.successes + self.failures
    }

    pub fn success_rate(&self) -> (r: Binary64)
        requires
            self.countable(),
        ensures
            r == self.rate(),
            r.is_nonnegative_finite(),
            0 < r.units() <= crate::binary64::unit(),
    {
        proof {
            crate::binary64::lemma_smoothed_in_unit(self.successes as nat, self.observations());
        }
        Binary64::smoothed_rate(self.successes, self.samples())
    }

    pub fn average_latency_ms(&self) -> (r: u64)
        requires
            self.countable(),
        ensures
            r == self.latency(),
    {
        let samples: u64 = self.samples();
        if samples == 0 {
            0
        } else {
            self.total_latency_ms / samples
        }
    }

    fn goes_before(&self, other: &Tally) -> (r: bool)
        requires
            self.countable(),
            other.countable(),
        ensures
            r == self.beats(*other),
    {
        let own: Binary64 = self.success_rate();
        let theirs: Binary64 = other.success_rate();
        theirs.less_than(own) || (!own.less_than(theirs) && self.average_latency_ms()
            < other.average_latency_ms())
    }
}

/// The rates of candidates are ordered as the numbers that they stand for.
proof fn lemma_rates_ordered(a: Tally, b: Tally)
    requires
        a.countable(),
        b.countable(),
    ensures
        a.rate().lt(b.rate()) == (a.rate().units() < b.rate().units()),
{
    crate::binary64::lemma_smoothed_in_unit(a.successes as nat, a.observations());
    crate::binary64::lemma_smoothed_in_unit(b.successes as nat, b.observations());
}

/// A candidate of which nothing was observed has a rate of one half and a
/// latency of zero.
pub proof fn lemma_unobserved(tally: Tally)
    requires
        tally.observations() == 0,
    ensures
        tally.rate() == crate::binary64::one_half(),
        tally.latency() == 0,
{
    crate::binary64::lemma_smoothed_of_nothing();
}

/// Of two candidates with as many observations, the one with more successes has
/// no lower rate.
pub proof fn lemma_more_successes(a: Tally, b: Tally)
    requires
        a.countable(),
        a.observations() == b.observations(),
        a.successes <= b.successes,
    ensures
        a.rate().units() <= b.rate().units(),
        !b.rate().lt(a.rate()),
{
    crate::binary64::lemma_smoothed_monotone(
        a.successes as nat,
        b.successes as nat,
        a.observations(),
    );
    crate::binary64::lemma_smoothed_in_unit(a.successes as nat, a.observations());
    crate::binary64::lemma_smoothed_in_unit(b.successes as nat, b.observations());
    if a.rate().bits < b.rate().bits {
        crate::binary64::lemma_magnitude_increases(a.rate().bits as nat, b.rate().bits as nat);
    }
}

/// Whether candidate `i` is the first one with fewer than `min_samples`
/// observations.
pub open spec fn is_first_short(tallies: Seq<Tally>, min_samples: nat, i: int) -> bool {
    &&& 0 <= i < tallies.len()
    &&& tallies[i].observations() < min_samples
    &&& forall|j: int| 0 <= j < i ==> (#[trigger] tallies[j]).observations() >= min_samples
}

/// Whether every candidate has `min_samples` observations.
pub open spec fn is_warm(tallies: Seq<Tally>, min_samples: nat) -> bool {
    forall|j: int|
        0 <= j < tallies.len() ==> (#[trigger] tallies[j]).observations() >= min_samples
}

/// Which of several candidates that nothing tells apart is taken.
#[derive(Debug, Clone, Copy, PartialEq, Eq, Structural)]
pub enum Ties {
    First,
    Last,
}

/// Whether no candidate beats candidate `i`.
pub open spec fn is_unbeaten(tallies: Seq<Tally>, i: int) -> bool {
    &&& 0 <= i < tallies.len()
    &&& forall|j: int|
        0 <= j < tallies.len() ==> !(#[trigger] tallies[j]).beats(tallies[i])
}

/// Whether candidate `i` is unbeaten, and the first or the last such one.
pub open spec fn is_best(tallies: Seq<Tally>, ties: Ties, i: int) -> bool {
    &&& is_unbeaten(tallies, i)
    &&& match ties {
        Ties::First => forall|j: int| 0 <= j < i ==> tallies[i].beats(#[trigger] tallies[j]),
        Ties::Last => forall|j: int|
            i < j < tallies.len() ==> tallies[i].beats(#[trigger] tallies[j]),
    }
}

/// Whether a draw makes the policy explore.
pub open spec fn explores(epsilon: Binary64, draw: Binary64) -> bool {
    epsilon.is_positive() && draw.lt(epsilon)
}

/// Whether the policy, past warm start, takes candidate `choice` for `reason`
/// where `draw` and `index` were drawn.
pub open spec fn is_decision(
    tallies: Seq<Tally>,
    epsilon: Binary64,
    ties: Ties,
    draw: Binary64,
    index: int,
    choice: int,
    reason: SelectionReason,
) -> bool {
    if explores(epsilon, draw) {
        choice == index && reason == SelectionReason::Explore
    } else {
        is_best(tallies, ties, choice) && reason == SelectionReason::Exploit
    }
}

/// Whether `draw` and `index` are what a source gave for an epsilon and a number
/// of candidates, with `middle` as its state between the two: the value first,
/// and the index only where the value lies below epsilon.
pub open spec fn is_drawn_by<R: RandomSource>(
    before: R,
    epsilon: Binary64,
    candidates: usize,
    draw: Binary64,
    middle: R,
    index: usize,
    after: R,
) -> bool {
    &&& R::unit_draw(before, draw, middle)
    &&& if draw.lt(epsilon) {
        R::bounded_draw(middle, candidates, index, after)
    } else {
        middle == after
    }
}

/// Whether `draw` and `index` are what a source gave for an epsilon and a number
/// of candidates. Where epsilon is not positive, the source was not asked.
pub open spec fn is_drawn<R: RandomSource>(
    before: R,
    epsilon: Binary64,
    candidates: usize,
    draw: Binary64,
    index: usize,
    after: R,
) -> bool {
    if epsilon.is_positive() {
        exists|middle: R| #[trigger]
            is_drawn_by(before, epsilon, candidates, draw, middle, index, after)
    } else {
        before == after
    }
}

/// The best candidate.
pub fn best(tallies: &[Tally], ties: Ties) -> (r: usize)
    requires
        tallies@.len() > 0,
        forall|j: int| 0 <= j < tallies@.len() ==> (#[trigger] tallies@[j]).countable(),
    ensures
        is_best(tallies@, ties, r as int),
{
    let mut best: usize = 0;
    let mut i: usize = 1;
    while i < tallies.len()
        invariant
            0 < i <= tallies@.len(),
            best < i,
            forall|j: int| 0 <= j < tallies@.len() ==> (#[trigger] tallies@[j]).countable(),
            is_best(tallies@.take(i as int), ties, best as int),
        decreases tallies.len() - i,
    {
        let ghost seen = tallies@.take(i as int);
        let ghost more = tallies@.take(i + 1);
        let ghost old_best = best as int;
        let replace: bool = match ties {
            Ties::First => tallies[i].goes_before(&tallies[best]),
            Ties::Last => !tallies[best].goes_before(&tallies[i]),
        };
        proof {
            assert(forall|j: int| 0 <= j < i ==> more[j] == seen[j]);
            lemma_rates_ordered(more[i as int], more[old_best]);
            lemma_rates_ordered(more[old_best], more[i as int]);
            assert forall|j: int| 0 <= j <= i implies {
                &&& more[j].rate().lt(more[old_best].rate()) == (more[j].rate().units()
                    < more[old_best].rate().units())
                &&& more[old_best].rate().lt(more[j].rate()) == (more[old_best].rate().units()
                    < more[j].rate().units())
                &&& more[j].rate().lt(more[i as int].rate()) == (more[j].rate().units()
                    < more[i as int].rate().units())
                &&& more[i as int].rate().lt((#[trigger] more[j]).rate()) == (
                more[i as int].rate().units() < more[j].rate().units())
            } by {
                lemma_rates_ordered(more[j], more[old_best]);
                lemma_rates_ordered(more[old_best], more[j]);
                lemma_rates_ordered(more[j], more[i as int]);
                lemma_rates_ordered(more[i as int], more[j]);
            }
            assert forall|j: int| 0 <= j < i implies !(#[trigger] more[j]).beats(
                more[old_best],
            ) by {
                assert(!seen[j].beats(seen[old_best]));
            }
        }
        if replace {
            best = i;
        }
        proof {
            assert(is_unbeaten(more, best as int));
        }
        i = i + 1;
    }
    assert(tallies@.take(i as int) =~= tallies@);
    best
}

/// The decision past warm start where `draw` and `index` were drawn.
pub fn decide(
    tallies: &[Tally],
    epsilon: Binary64,
    ties: Ties,
    draw: Binary64,
    index: usize,
) -> (r: (usize, SelectionReason))
    requires
        index < tallies@.len(),
        forall|j: int| 0 <= j < tallies@.len() ==> (#[trigger] tallies@[j]).countable(),
    ensures
        r.0 < tallies@.len(),
        is_decision(tallies@, epsilon, ties, draw, index as int, r.0 as int, r.1),
        !epsilon.is_nan() && !draw.is_nan() && 0 <= draw.units() ==> ((r.1
            == SelectionReason::Explore) == (draw.units() < epsilon.units())),
        r.1 == SelectionReason::Explore ==> r.0 == index,
{
    if epsilon.positive() && draw.less_than(epsilon) {
        (index, SelectionReason::Explore)
    } else {
        (best(tallies, ties), SelectionReason::Exploit)
    }
}

/// The decision past warm start. A value is drawn only where epsilon is
/// positive, and an index only where that value lies below epsilon.
pub fn draw_and_decide<R: RandomSource>(
    tallies: &[Tally],
    epsilon: Binary64,
    ties: Ties,
    rng: &mut R,
) -> (r: (usize, SelectionReason))
    requires
        tallies@.len() > 0,
        forall|j: int| 0 <= j < tallies@.len() ==> (#[trigger] tallies@[j]).countable(),
    ensures
        r.0 < tallies@.len(),
        exists|draw: Binary64, index: usize|
            {
                &&& is_unit_fraction(draw)
                &&& index < tallies@.len()
                &&& #[trigger] is_drawn(
                    *old(rng),
                    epsilon,
                    tallies@.len() as usize,
                    draw,
                    index,
                    *final(rng),
                )
                &&& is_decision(
                    tallies@,
                    epsilon,
                    ties,
                    draw,
                    index as int,
                    r.0 as int,
                    r.1,
                )
            },
{
    let mut draw: Binary64 = Binary64::unit_fraction(0);
    let mut index: usize = 0;
    if epsilon.positive() {
        draw = rng.next_unit_float();
        let ghost middle = *rng;
        if draw.less_than(epsilon) {
            index = rng.next_bounded(tallies.len());
        }
        assert(is_drawn_by(
            *old(rng),
            epsilon,
            tallies@.len() as usize,
            draw,
            middle,
            index,
            *rng,
        ));
    }
    assert(is_drawn(*old(rng), epsilon, tallies@.len() as usize, draw, index, *rng));
    decide(tallies, epsilon, ties, draw, index)
}

/// Whether a selection is what the policy allows where `draw` and `index` were
/// drawn: the first candidate with too few observations, and where there is
/// none, the decision on the draws.
pub open spec fn is_choice(
    tallies: Seq<Tally>,
    candidates: Seq<String>,
    bucket: PromptBucket,
    epsilon: Binary64,
    min_samples: nat,
    ties: Ties,
    draw: Binary64,
    index: usize,
    selection: Selection,
) -> bool {
    &&& selection.bucket == bucket
    &&& is_warm(tallies, min_samples) ==> exists|choice: int|
        {
            &&& 0 <= choice < candidates.len()
            &&& #[trigger] is_decision(
                tallies,
                epsilon,
                ties,
                draw,
                index as int,
                choice,
                selection.reason,
            )
            &&& selection.model@ == candidates[choice]@
        }
    &&& !is_warm(tallies, min_samples) ==> exists|choice: int|
        {
            &&& #[trigger] is_first_short(tallies, min_samples, choice)
            &&& selection.model@ == candidates[choice]@
            &&& selection.reason == SelectionReason::WarmStart
        }
}

/// Whether a selection is what the policy makes of the draws of a source, which
/// is asked only where every candidate has enough observations.
pub open spec fn is_selection<R: RandomSource>(
    tallies: Seq<Tally>,
    candidates: Seq<String>,
    bucket: PromptBucket,
    epsilon: Binary64,
    min_samples: nat,
    ties: Ties,
    before: R,
    selection: Selection,
    after: R,
) -> bool {
    exists|draw: Binary64, index: usize|
        {
            &&& is_unit_fraction(draw)
            &&& index < candidates.len()
            &&& #[trigger] is_choice(
                tallies,
                candidates,
                bucket,
                epsilon,
                min_samples,
                ties,
                draw,
                index,
                selection,
            )
            &&& if is_warm(tallies, min_samples) {
                is_drawn(before, epsilon, candidates.len() as usize, draw, index, after)
            } else {
                before == after
            }
        }
}

/// What a source answers decides the selection: the one that is allowed where
/// its answers were drawn.
pub proof fn lemma_selection_follows_draws<R: RandomSource>(
    tallies: Seq<Tally>,
    candidates: Seq<String>,
    bucket: PromptBucket,
    epsilon: Binary64,
    min_samples: nat,
    ties: Ties,
    before: R,
    selection: Selection,
    after: R,
    draw: Binary64,
    middle: R,
    index: usize,
)
    requires
        is_selection(
            tallies,
            candidates,
            bucket,
            epsilon,
            min_samples,
            ties,
            before,
            selection,
            after,
        ),
        tallies.len() == candidates.len(),
        index < candidates.len(),
        forall|r: Binary64, next: R| #[trigger]
            R::unit_draw(before, r, next) ==> r == draw && next == middle,
        forall|r: usize, next: R| #[trigger]
            R::bounded_draw(middle, candidates.len() as usize, r, next) ==> r == index,
    ensures
        is_choice(
            tallies,
            candidates,
            bucket,
            epsilon,
            min_samples,
            ties,
            draw,
            index,
            selection,
        ),
        is_warm(tallies, min_samples) && epsilon.units() > 0 && draw.units() < epsilon.units()
            && !epsilon.is_nan() && !draw.is_nan() ==> selection.model@
            == candidates[index as int]@ && selection.reason == SelectionReason::Explore,
        is_warm(tallies, min_samples) && (epsilon.units() <= 0 || draw.units() >= epsilon.units()
            || epsilon.is_nan() || draw.is_nan()) ==> selection.reason == SelectionReason::Exploit,
{
    let (d, i) = choose|d: Binary64, i: usize|
        {
            &&& is_unit_fraction(d)
            &&& i < candidates.len()
            &&& #[trigger] is_choice(
                tallies,
                candidates,
                bucket,
                epsilon,
                min_samples,
                ties,
                d,
                i,
                selection,
            )
            &&& if is_warm(tallies, min_samples) {
                is_drawn(before, epsilon, candidates.len() as usize, d, i, after)
            } else {
                before == after
            }
        };
    if is_warm(tallies, min_samples) {
        let choice = choose|choice: int|
            {
                &&& 0 <= choice < candidates.len()
                &&& #[trigger] is_decision(
                    tallies,
                    epsilon,
                    ties,
                    d,
                    i as int,
                    choice,
                    selection.reason,
                )
                &&& selection.model@ == candidates[choice]@
            };
        if epsilon.is_positive() {
            let m = choose|m: R| #[trigger]
                is_drawn_by(before, epsilon, candidates.len() as usize, d, m, i, after);
            assert(R::unit_draw(before, d, m));
        }
        assert(is_decision(
            tallies,
            epsilon,
            ties,
            draw,
            index as int,
            choice,
            selection.reason,
        ));
    }
}

/// On the same draws there is one selection only.
pub proof fn lemma_choice_unique(
    tallies: Seq<Tally>,
    candidates: Seq<String>,
    bucket: PromptBucket,
    epsilon: Binary64,
    min_samples: nat,
    ties: Ties,
    draw: Binary64,
    index: usize,
    a: Selection,
    b: Selection,
)
    requires
        is_choice(tallies, candidates, bucket, epsilon, min_samples, ties, draw, index, a),
        is_choice(tallies, candidates, bucket, epsilon, min_samples, ties, draw, index, b),
    ensures
        a.model@ == b.model@,
        a.bucket == b.bucket,
        a.reason == b.reason,
{
    if is_warm(tallies, min_samples) {
        let x = choose|x: int|
            {
                &&& 0 <= x < candidates.len()
                &&& #[trigger] is_decision(
                    tallies,
                    epsilon,
                    ties,
                    draw,
                    index as int,
                    x,
                    a.reason,
                )
                &&& a.model@ == candidates[x]@
            };
        let y = choose|y: int|
            {
                &&& 0 <= y < candidates.len()
                &&& #[trigger] is_decision(
                    tallies,
                    epsilon,
                    ties,
                    draw,
                    index as int,
                    y,
                    b.reason,
                )
                &&& b.model@ == candidates[y]@
            };
        if !explores(epsilon, draw) {
            lemma_best_unique(tallies, ties, x, y);
        }
    }
}

/// The model that is selected is one of the candidates.
pub proof fn lemma_selection_is_a_candidate(
    tallies: Seq<Tally>,
    candidates: Seq<String>,
    bucket: PromptBucket,
    epsilon: Binary64,
    min_samples: nat,
    ties: Ties,
    draw: Binary64,
    index: usize,
    selection: Selection,
)
    requires
        tallies.len() == candidates.len(),
        is_choice(
            tallies,
            candidates,
            bucket,
            epsilon,
            min_samples,
            ties,
            draw,
            index,
            selection,
        ),
    ensures
        selection.bucket == bucket,
        exists|i: int| 0 <= i < candidates.len() && selection.model@ == (#[trigger] candidates[i])@,
{
}

/// A candidate is taken for a warm start if, and only if, some candidate has too
/// few observations.
pub proof fn lemma_warm_start_first(
    tallies: Seq<Tally>,
    candidates: Seq<String>,
    bucket: PromptBucket,
    epsilon: Binary64,
    min_samples: nat,
    ties: Ties,
    draw: Binary64,
    index: usize,
    selection: Selection,
)
    requires
        is_choice(
            tallies,
            candidates,
            bucket,
            epsilon,
            min_samples,
            ties,
            draw,
            index,
            selection,
        ),
    ensures
        (selection.reason == SelectionReason::WarmStart) == !is_warm(tallies, min_samples),
{
}

/// Past warm start, nothing is explored where epsilon is zero or less, and
/// everything where it is one or more.
pub proof fn lemma_epsilon_bounds_exploration(
    tallies: Seq<Tally>,
    candidates: Seq<String>,
    bucket: PromptBucket,
    epsilon: Binary64,
    min_samples: nat,
    ties: Ties,
    draw: Binary64,
    index: usize,
    selection: Selection,
)
    requires
        is_choice(
            tallies,
            candidates,
            bucket,
            epsilon,
            min_samples,
            ties,
            draw,
            index,
            selection,
        ),
        is_unit_fraction(draw),
        is_warm(tallies, min_samples),
    ensures
        !epsilon.is_positive() ==> selection.reason == SelectionReason::Exploit,
        epsilon.is_one_or_more() ==> selection.reason == SelectionReason::Explore,
{
    crate::binary64::lemma_unit_positive();
}

/// Where nothing is explored, the best candidate is selected.
pub proof fn lemma_exploit_selects_the_best(
    tallies: Seq<Tally>,
    candidates: Seq<String>,
    bucket: PromptBucket,
    epsilon: Binary64,
    min_samples: nat,
    ties: Ties,
    draw: Binary64,
    index: usize,
    selection: Selection,
    best: int,
)
    requires
        is_choice(
            tallies,
            candidates,
            bucket,
            epsilon,
            min_samples,
            ties,
            draw,
            index,
            selection,
        ),
        selection.reason == SelectionReason::Exploit,
        is_best(tallies, ties, best),
    ensures
        selection.model@ == candidates[best]@,
{
    let choice = choose|choice: int|
        {
            &&& 0 <= choice < candidates.len()
            &&& #[trigger] is_decision(
                tallies,
                epsilon,
                ties,
                draw,
                index as int,
                choice,
                selection.reason,
            )
            &&& selection.model@ == candidates[choice]@
        };
    lemma_best_unique(tallies, ties, choice, best);
}

/// The candidate that an exploiting decision takes has the highest success
/// rate, and the lowest latency among those that share it.
pub proof fn lemma_best_is_best(tallies: Seq<Tally>, ties: Ties, i: int, j: int)
    requires
        is_best(tallies, ties, i),
        0 <= j < tallies.len(),
        tallies[i].countable(),
        tallies[j].countable(),
    ensures
        tallies[j].rate().units() <= tallies[i].rate().units(),
        tallies[j].rate().units() == tallies[i].rate().units() ==> tallies[i].latency()
            <= tallies[j].latency(),
{
    lemma_rates_ordered(tallies[i], tallies[j]);
    lemma_rates_ordered(tallies[j], tallies[i]);
    assert(!tallies[j].beats(tallies[i]));
}

/// There is one best candidate only.
pub proof fn lemma_best_unique(tallies: Seq<Tally>, ties: Ties, i: int, j: int)
    requires
        is_best(tallies, ties, i),
        is_best(tallies, ties, j),
    ensures
        i == j,
{
    assert(!tallies[j].beats(tallies[i]));
    assert(!tallies[i].beats(tallies[j]));
}

/// There is one first candidate with too few observations only, and none where
/// every candidate has enough.
pub proof fn lemma_first_short_unique(tallies: Seq<Tally>, min_samples: nat, i: int, j: int)
    requires
        is_first_short(tallies, min_samples, i),
    ensures
        is_first_short(tallies, min_samples, j) ==> i == j,
        !is_warm(tallies, min_samples),
{
}

/// The rate of a candidate is the number nearest to
/// `(successes + 1) / (observations + 2)` for up to 2^53 observations, and differs
/// from it by at most one part in 2^50 for more.
pub proof fn lemma_rate_is_the_ratio(tally: Tally)
    requires
        tally.successes + tally.failures <= u64::MAX,
    ensures
        tally.successes + tally.failures + 2 <= 0x20_0000_0000_0000 ==> tally.rate().is_nearest(
            (tally.successes + 1) as nat,
            (tally.successes + tally.failures + 2) as nat,
        ),
        crate::binary64::distance(
            tally.rate().units() * (tally.successes + tally.failures + 2),
            (tally.successes + 1) * crate::binary64::unit(),
        ) * 0x4_0000_0000_0000 <= (tally.successes + 1) * crate::binary64::unit(),
{
    crate::binary64::lemma_smoothed_is_the_ratio(
        tally.successes as nat,
        (tally.successes + tally.failures) as nat,
    );
}

/// The average latency is the total over the number of observations, cut off to
/// whole milliseconds, and zero where there are none.
pub proof fn lemma_latency_is_the_average(tally: Tally)
    ensures
        tally.successes + tally.failures == 0 ==> tally.latency() == 0,
        tally.successes + tally.failures > 0 ==> tally.latency() * (tally.successes
            + tally.failures) <= tally.total_latency_ms < (tally.latency() + 1) * (tally.successes
            + tally.failures),
{
    let n: int = tally.successes + tally.failures;
    let total: int = tally.total_latency_ms as int;
    if n > 0 {
        assert((total / n) * n <= total < (total / n + 1) * n) by (nonlinear_arith)
            requires
                n > 0,
                total >= 0,
        ;
    }
}

/// Past warm start, a draw below epsilon, and no other, makes the policy explore,
/// for every epsilon that is a number; the candidate is then the one drawn. An
/// epsilon that is negative or not a number makes it exploit.
pub proof fn lemma_explores_below_epsilon(
    tallies: Seq<Tally>,
    candidates: Seq<String>,
    bucket: PromptBucket,
    epsilon: Binary64,
    min_samples: nat,
    ties: Ties,
    draw: Binary64,
    index: usize,
    selection: Selection,
)
    requires
        is_choice(
            tallies,
            candidates,
            bucket,
            epsilon,
            min_samples,
            ties,
            draw,
            index,
            selection,
        ),
        forall|i: int|
            0 <= i < tallies.len() ==> (#[trigger] tallies[i]).successes + tallies[i].failures
                >= min_samples,
        draw.bits < 0x7FF0_0000_0000_0000,
        draw.units() < crate::binary64::unit(),
    ensures
        epsilon.bits <= 0x7FF0_0000_0000_0000 ==> ((selection.reason == SelectionReason::Explore)
            == (draw.units() < epsilon.units())),
        epsilon.bits > 0x7FF0_0000_0000_0000 ==> selection.reason != SelectionReason::Explore,
        selection.reason == SelectionReason::Explore ==> selection.model@
            == candidates[index as int]@,
        selection.reason != SelectionReason::WarmStart,
{
    assert(is_warm(tallies, min_samples));
}

/// The first candidate with fewer than `min_samples` observations is taken for a
/// warm start, whatever was drawn.
pub proof fn lemma_warm_start_takes_the_first_short(
    tallies: Seq<Tally>,
    candidates: Seq<String>,
    bucket: PromptBucket,
    epsilon: Binary64,
    min_samples: nat,
    ties: Ties,
    draw: Binary64,
    index: usize,
    selection: Selection,
    first: int,
)
    requires
        is_choice(
            tallies,
            candidates,
            bucket,
            epsilon,
            min_samples,
            ties,
            draw,
            index,
            selection,
        ),
        0 <= first < tallies.len(),
        tallies[first].successes + tallies[first].failures < min_samples,
        forall|i: int|
            0 <= i < first ==> (#[trigger] tallies[i]).successes + tallies[i].failures
                >= min_samples,
    ensures
        selection.model@ == candidates[first]@,
        selection.reason == SelectionReason::WarmStart,
        selection.bucket == bucket,
{
    assert(tallies[first].observations() < min_samples);
    let choice = choose|choice: int|
        {
            &&& #[trigger] is_first_short(tallies, min_samples, choice)
            &&& selection.model@ == candidates[choice]@
            &&& selection.reason == SelectionReason::WarmStart
        };
    assert(tallies[choice].observations() < min_samples);
    if choice > first {
        assert(tallies[first].observations() >= min_samples);
    }
}

/// The candidate that is exploited has the highest rate of all, and the lowest
/// average latency of those with that rate. Of several that share both it is the
/// first one, or the last one.
pub proof fn lemma_exploit_takes_the_highest_rate(
    tallies: Seq<Tally>,
    candidates: Seq<String>,
    bucket: PromptBucket,
    epsilon: Binary64,
    min_samples: nat,
    ties: Ties,
    draw: Binary64,
    index: usize,
    selection: Selection,
) -> (best: int)
    requires
        is_choice(
            tallies,
            candidates,
            bucket,
            epsilon,
            min_samples,
            ties,
            draw,
            index,
            selection,
        ),
        selection.reason == SelectionReason::Exploit,
        forall|i: int|
            0 <= i < tallies.len() ==> (#[trigger] tallies[i]).successes + tallies[i].failures
                <= u64::MAX,
    ensures
        0 <= best < tallies.len(),
        selection.model@ == candidates[best]@,
        forall|i: int|
            0 <= i < tallies.len() ==> (#[trigger] tallies[i]).rate().units()
                <= tallies[best].rate().units(),
        forall|i: int|
            0 <= i < tallies.len() && (#[trigger] tallies[i]).rate().units()
                == tallies[best].rate().units() ==> tallies[best].latency() <= tallies[i].latency(),
        forall|i: int|
            0 <= i < tallies.len() && (#[trigger] tallies[i]).rate().units()
                == tallies[best].rate().units() && tallies[i].latency() == tallies[best].latency()
                ==> match ties {
                Ties::First => best <= i,
                Ties::Last => i <= best,
            },
{
    let best = choose|choice: int|
        {
            &&& 0 <= choice < candidates.len()
            &&& #[trigger] is_decision(
                tallies,
                epsilon,
                ties,
                draw,
                index as int,
                choice,
                selection.reason,
            )
            &&& selection.model@ == candidates[choice]@
        };
    assert forall|i: int| 0 <= i < tallies.len() implies {
        &&& (#[trigger] tallies[i]).rate().units() <= tallies[best].rate().units()
        &&& tallies[i].rate().units() == tallies[best].rate().units() ==> tallies[best].latency()
            <= tallies[i].latency()
        &&& tallies[i].rate().units() == tallies[best].rate().units() && tallies[i].latency()
            == tallies[best].latency() ==> match ties {
            Ties::First => best <= i,
            Ties::Last => i <= best,
        }
    } by {
        assert(tallies[best].successes + tallies[best].failures <= u64::MAX);
        lemma_rates_ordered(tallies[best], tallies[i]);
        lemma_rates_ordered(tallies[i], tallies[best]);
        assert(!tallies[i].beats(tallies[best]));
    }
    best
}

/// Of two candidates with up to 2^24 observations, the one with the larger ratio
/// `(successes + 1) / (observations + 2)` has the higher rate.
pub proof fn lemma_rates_follow_ratios(a: Tally, b: Tally)
    requires
        a.successes + a.failures + 2 <= 0x100_0000,
        b.successes + b.failures + 2 <= 0x100_0000,
    ensures
        a.rate().units() < b.rate().units() <==> (a.successes + 1) * (b.successes + b.failures + 2)
            < (b.successes + 1) * (a.successes + a.failures + 2),
        a.rate() == b.rate() <==> (a.successes + 1) * (b.successes + b.failures + 2) == (
        b.successes + 1) * (a.successes + a.failures + 2),
{
    crate::binary64::lemma_smoothed_order(
        a.successes as nat,
        (a.successes + a.failures) as nat,
        b.successes as nat,
        (b.successes + b.failures) as nat,
    );
}

/// A source is asked as far as the decision needs it: for nothing during a warm
/// start or where epsilon is zero or less, else for a value, and for an index only
/// where that value lies below epsilon. What it answers is what decides.
pub proof fn lemma_source_is_asked_as_needed<R: RandomSource>(
    tallies: Seq<Tally>,
    candidates: Seq<String>,
    bucket: PromptBucket,
    epsilon: Binary64,
    min_samples: nat,
    ties: Ties,
    before: R,
    selection: Selection,
    after: R,
) -> (drawn: (Binary64, R, usize))
    requires
        is_selection(
            tallies,
            candidates,
            bucket,
            epsilon,
            min_samples,
            ties,
            before,
            selection,
            after,
        ),
        epsilon.bits <= 0x7FF0_0000_0000_0000 || epsilon.bits >= 0x8000_0000_0000_0000,
    ensures
        (selection.reason == SelectionReason::WarmStart) == exists|i: int|
            0 <= i < tallies.len() && (#[trigger] tallies[i]).successes + tallies[i].failures
                < min_samples,
        selection.reason == SelectionReason::WarmStart || epsilon.units() <= 0 ==> after == before,
        selection.reason != SelectionReason::WarmStart && epsilon.units() > 0 ==> {
            let (draw, middle, index) = drawn;
            &&& R::unit_draw(before, draw, middle)
            &&& draw.bits < 0x7FF0_0000_0000_0000
            &&& draw.units() < crate::binary64::unit()
            &&& index < candidates.len()
            &&& if draw.units() < epsilon.units() {
                &&& R::bounded_draw(middle, candidates.len() as usize, index, after)
                &&& selection.reason == SelectionReason::Explore
                &&& selection.model@ == candidates[index as int]@
            } else {
                &&& middle == after
                &&& selection.reason == SelectionReason::Exploit
            }
        },
{
    let (draw, index) = choose|d: Binary64, i: usize|
        {
            &&& is_unit_fraction(d)
            &&& i < candidates.len()
            &&& #[trigger] is_choice(
                tallies,
                candidates,
                bucket,
                epsilon,
                min_samples,
                ties,
                d,
                i,
                selection,
            )
            &&& if is_warm(tallies, min_samples) {
                is_drawn(before, epsilon, candidates.len() as usize, d, i, after)
            } else {
                before == after
            }
        };
    assert(crate::binary64::magnitude(0) == 0);
    lemma_warm_start_first(
        tallies,
        candidates,
        bucket,
        epsilon,
        min_samples,
        ties,
        draw,
        index,
        selection,
    );
    assert(is_warm(tallies, min_samples) == !exists|i: int|
        0 <= i < tallies.len() && (#[trigger] tallies[i]).successes + tallies[i].failures
            < min_samples) by {
        if !is_warm(tallies, min_samples) {
            let i = choose|i: int|
                0 <= i < tallies.len() && !((#[trigger] tallies[i]).observations() >= min_samples);
            assert(tallies[i].successes + tallies[i].failures < min_samples);
        } else {
            assert forall|i: int| 0 <= i < tallies.len() implies (#[trigger] tallies[i]).successes
                + tallies[i].failures >= min_samples by {
                assert(tallies[i].observations() >= min_samples);
            }
        }
    }
    if is_warm(tallies, min_samples) && epsilon.units() > 0 {
        let middle = choose|m: R| #[trigger]
            is_drawn_by(before, epsilon, candidates.len() as usize, draw, m, index, after);
        (draw, middle, index)
    } else {
        (draw, before, index)
    }
}

/// The names under which the reasons are shown.
pub proof fn lemma_reason_names()
    ensures
        SelectionReason::WarmStart.name() == "warm_start"@,
        SelectionReason::Explore.name() == "explore"@,
        SelectionReason::Exploit.name() == "exploit"@,
{
}

/// A number of observations fits a machine word if it is less than 2^64.
pub proof fn lemma_countable(tally: Tally)
    ensures
        tally.countable() <==> tally.successes + tally.failures < 0x1_0000_0000_0000_0000,
        tally.observations() == tally.successes + tally.failures,
{
}

/// A candidate is selected for a warm start if, and only if, some candidate has too few
/// observations. Without a positive epsilon nothing is explored, and the source is not
/// asked.
pub proof fn lemma_reason_of_a_selection<R: RandomSource>(
    tallies: Seq<Tally>,
    candidates: Seq<String>,
    bucket: PromptBucket,
    epsilon: Binary64,
    min_samples: nat,
    ties: Ties,
    before: R,
    selection: Selection,
    after: R,
)
    requires
        is_selection(
            tallies,
            candidates,
            bucket,
            epsilon,
            min_samples,
            ties,
            before,
            selection,
            after,
        ),
        tallies.len() == candidates.len(),
    ensures
        selection.bucket == bucket,
        exists|i: int| 0 <= i < candidates.len() && selection.model@ == (#[trigger] candidates[i])@,
        (selection.reason == SelectionReason::WarmStart) == exists|i: int|
            0 <= i < tallies.len() && (#[trigger] tallies[i]).successes + tallies[i].failures
                < min_samples,
        epsilon.bits == 0 || epsilon.bits > 0x7FF0_0000_0000_0000 ==> selection.reason
            != SelectionReason::Explore && after == before,
{
    let (draw, index) = choose|d: Binary64, i: usize|
        {
            &&& is_unit_fraction(d)
            &&& i < candidates.len()
            &&& #[trigger] is_choice(
                tallies,
                candidates,
                bucket,
                epsilon,
                min_samples,
                ties,
                d,
                i,
                selection,
            )
            &&& if is_warm(tallies, min_samples) {
                is_drawn(before, epsilon, candidates.len() as usize, d, i, after)
            } else {
                before == after
            }
        };
    lemma_selection_is_a_candidate(
        tallies,
        candidates,
        bucket,
        epsilon,
        min_samples,
        ties,
        draw,
        index,
        selection,
    );
    assert(crate::binary64::magnitude(0) == 0);
    assert(is_warm(tallies, min_samples) == !exists|i: int|
        0 <= i < tallies.len() && (#[trigger] tallies[i]).successes + tallies[i].failures
            < min_samples) by {
        if !is_warm(tallies, min_samples) {
            let i = choose|i: int|
                0 <= i < tallies.len() && !((#[trigger] tallies[i]).observations() >= min_samples);
            assert(tallies[i].successes + tallies[i].failures < min_samples);
        } else {
            assert forall|i: int| 0 <= i < tallies.len() implies (#[trigger] tallies[i]).successes
                + tallies[i].failures >= min_samples by {
                assert(tallies[i].observations() >= min_samples);
            }
        }
    }
}

} // verus!
