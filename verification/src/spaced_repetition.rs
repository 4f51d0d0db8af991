//! The scheduling rules: what a review does to a card's interval, factors and
//! next review, under each of the three algorithms.

use vstd::prelude::*;
use vstd::arithmetic::div_mod::*;
use vstd::arithmetic::mul::*;
use crate::card_time::{clamp_to_i64, now, Timestamp};
use crate::collection::CardCollection;
use crate::models::{
    card_views, AppSettings, AppSettingsView, Card, CardView, ReviewDifficulty, ReviewStats,
    SpacedRepetitionAlgorithm, DECIMAL_ONE, MIN_EASE_FACTOR,
};
use crate::sequences::{lemma_filter_empty, lemma_filter_next};

verus! {

/// The least whole number that is at least `a / b`.
pub open spec fn ceil_div(a: int, b: int) -> int
    recommends
        b > 0,
{
    if a % b == 0 {
        a / b
    } else {
        a / b + 1
    }
}

/// `a` thousandths as the nearest whole number, a half counting upward.
pub open spec fn round_thousandths(a: int) -> int {
    (a + 500) / 1000
}

/// `x`, but no more than the largest `u64`.
pub open spec fn cap_u64(x: int) -> int {
    if x > u64::MAX {
        u64::MAX as int
    } else {
        x
    }
}

/// The ease factor lowered by `step`, but not below 1.3.
pub open spec fn lowered_ease(ease: int, step: int) -> int {
    if ease - step > MIN_EASE_FACTOR {
        ease - step
    } else {
        MIN_EASE_FACTOR as int
    }
}

/// The ease factor after a review under SM-2: Again takes 0.2 off and Hard
/// 0.15, neither going below 1.3; Good keeps it; Easy adds 0.15, with no
/// ceiling but the largest value the field holds.
pub open spec fn sm2_ease(ease: int, difficulty: ReviewDifficulty) -> int {
    match difficulty {
        ReviewDifficulty::Again => lowered_ease(ease, 200),
        ReviewDifficulty::Hard => lowered_ease(ease, 150),
        ReviewDifficulty::Good => ease,
        ReviewDifficulty::Easy => cap_u64(ease + 150),
    }
}

/// The interval in days after a review under SM-2. `review_count` is the
/// number of reviews before this one. Products too large for the field stop
/// at its ends.
pub open spec fn sm2_interval(
    interval: int,
    ease: int,
    review_count: int,
    difficulty: ReviewDifficulty,
) -> int {
    match difficulty {
        ReviewDifficulty::Again => 1,
        ReviewDifficulty::Hard => clamp_to_i64(ceil_div(interval * 1200, 1000)),
        ReviewDifficulty::Good => if review_count == 0 {
            1
        } else if review_count == 1 {
            6
        } else {
            clamp_to_i64(ceil_div(interval * ease, 1000))
        },
        ReviewDifficulty::Easy => if review_count == 0 {
            4
        } else if review_count == 1 {
            6
        } else {
            clamp_to_i64(ceil_div(interval * ease * 1300, 1_000_000))
        },
    }
}

/// The index of the last of `boxes` Leitner boxes; 0 where there is none.
pub open spec fn last_box(boxes: int) -> int {
    if boxes > 0 {
        boxes - 1
    } else {
        0
    }
}

/// The box a card lies in after a review: Again sends it to the first box,
/// Hard leaves it, Good and Easy move it one box on. No card lies beyond the
/// last box: one that would, or did, lies in the last. With no box
/// configured every card lies in box 0.
pub open spec fn leitner_box_after(current: int, difficulty: ReviewDifficulty, boxes: int) -> int {
    let target = match difficulty {
        ReviewDifficulty::Again => 0,
        ReviewDifficulty::Hard => current,
        _ => current + 1,
    };
    let capped = if target > last_box(boxes) {
        last_box(boxes)
    } else {
        target
    };
    if capped > u32::MAX {
        u32::MAX as int
    } else {
        capped
    }
}

/// The interval in days of box `index`: the configured day count, read as 0
/// where it is negative. With no box configured the interval is one day.
pub open spec fn leitner_interval(intervals: Seq<int>, index: int) -> int {
    if 0 <= index < intervals.len() {
        if intervals[index] < 0 {
            0
        } else {
            intervals[index]
        }
    } else {
        1
    }
}

/// The exponential factor after a review: Again resets it to 1, Hard keeps
/// it, Good and Easy multiply it by the base, rounded to the nearest
/// thousandth and stopping at the largest value the field holds.
pub open spec fn exponential_factor_after(
    factor: int,
    base: int,
    difficulty: ReviewDifficulty,
) -> int {
    match difficulty {
        ReviewDifficulty::Again => DECIMAL_ONE as int,
        ReviewDifficulty::Hard => factor,
        _ => cap_u64(round_thousandths(factor * base)),
    }
}

/// The interval in days for an exponential factor: the factor rounded to
/// whole days, and at least one day.
pub open spec fn exponential_interval(factor: int) -> int {
    if round_thousandths(factor) < 1 {
        1
    } else {
        round_thousandths(factor)
    }
}

/// What a review decides: the new interval, ease factor, next review, Leitner
/// box and exponential factor, in this order.
pub open spec fn next_review_of(
    card: CardView,
    difficulty: ReviewDifficulty,
    settings: AppSettingsView,
    now: Timestamp,
) -> (int, int, Timestamp, int, int) {
    match settings.algorithm {
        SpacedRepetitionAlgorithm::SM2 => {
            let interval = sm2_interval(
                card.interval,
                card.ease_factor,
                card.review_count,
                difficulty,
            );
            (
                interval,
                sm2_ease(card.ease_factor, difficulty),
                now.plus_days(interval),
                card.leitner_box,
                card.exponential_factor,
            )
        },
        SpacedRepetitionAlgorithm::Leitner => {
            let index = leitner_box_after(
                card.leitner_box,
                difficulty,
                settings.leitner_intervals.len() as int,
            );
            let interval = leitner_interval(settings.leitner_intervals, index);
            (interval, card.ease_factor, now.plus_days(interval), index, card.exponential_factor)
        },
        SpacedRepetitionAlgorithm::SimpleExponential => {
            let factor = exponential_factor_after(
                card.exponential_factor,
                settings.exponential_base,
                difficulty,
            );
            let interval = exponential_interval(factor);
            (interval, card.ease_factor, now.plus_days(interval), card.leitner_box, factor)
        },
    }
}

/// The card is due at `now`: its next review is `now` or earlier.
pub open spec fn is_due_at(card: CardView, now: Timestamp) -> bool {
    card.next_review.not_after(now)
}

/// The test that a card is due at `now`.
pub open spec fn due_at(now: Timestamp) -> spec_fn(CardView) -> bool {
    |c: CardView| is_due_at(c, now)
}

/// The test that a card was never reviewed.
pub open spec fn never_reviewed() -> spec_fn(CardView) -> bool {
    |c: CardView| c.review_count == 0
}

/// The test that a card was reviewed and has an interval under 21 days.
pub open spec fn in_learning() -> spec_fn(CardView) -> bool {
    |c: CardView| c.review_count > 0 && c.interval < 21
}

/// The test that a card has an interval of 21 days or more.
pub open spec fn is_mature() -> spec_fn(CardView) -> bool {
    |c: CardView| c.interval >= 21
}

/// The cards of `cards` that are due at `now`, in their order.
pub open spec fn due_cards(cards: Seq<CardView>, now: Timestamp) -> Seq<CardView> {
    cards.filter(due_at(now))
}

/// The counts that `stats` must hold for `cards` at `now`. A card may count
/// under more than one heading: a card never reviewed whose next review has
/// come is both new and due.
pub open spec fn stats_match(stats: ReviewStats, cards: Seq<CardView>, now: Timestamp) -> bool {
    &&& stats.total_cards == cards.len()
    &&& stats.cards_due == cards.filter(due_at(now)).len()
    &&& stats.cards_new == cards.filter(never_reviewed()).len()
    &&& stats.cards_learning == cards.filter(in_learning()).len()
    &&& stats.cards_mature == cards.filter(is_mature()).len()
}

/// Answered Again, a card with an ease factor of 1.3 or more never comes
/// out with a higher one, nor with one under 1.3, whatever the rule.
pub proof fn lemma_again_never_raises_ease(card: CardView, settings: AppSettingsView, now: Timestamp)
    requires
        card.ease_factor >= MIN_EASE_FACTOR,
    ensures
        next_review_of(card, ReviewDifficulty::Again, settings, now).1 <= card.ease_factor,
        next_review_of(card, ReviewDifficulty::Again, settings, now).1 >= MIN_EASE_FACTOR,
{
}

/// Under SM-2 an answer of Again or Hard leaves an ease factor of 1.3 or
/// more, whatever it was; from 1.3, Again leaves 1.3.
pub proof fn lemma_sm2_floors_ease(ease: int)
    ensures
        sm2_ease(ease, ReviewDifficulty::Again) >= MIN_EASE_FACTOR,
        sm2_ease(ease, ReviewDifficulty::Hard) >= MIN_EASE_FACTOR,
        sm2_ease(MIN_EASE_FACTOR as int, ReviewDifficulty::Again) == MIN_EASE_FACTOR,
{
}

/// What a review decides for a card with an interval that is not negative
/// and an ease factor of 1.3 or more: an interval that is not negative, and
/// an ease factor of 1.3 or more.
pub proof fn lemma_next_review_is_well_formed(
    card: CardView,
    difficulty: ReviewDifficulty,
    settings: AppSettingsView,
    now: Timestamp,
)
    requires
        card.interval >= 0,
        card.ease_factor >= MIN_EASE_FACTOR,
    ensures
        next_review_of(card, difficulty, settings, now).0 >= 0,
        next_review_of(card, difficulty, settings, now).1 >= MIN_EASE_FACTOR,
{
    assert(card.interval * card.ease_factor >= 0) by (nonlinear_arith)
        requires
            card.interval >= 0,
            card.ease_factor >= 0,
    ;
    assert(card.interval * card.ease_factor * 1300 >= 0);
}

/// Rounding a negated quotient upward is negating the quotient rounded
/// downward.
proof fn lemma_ceil_div_of_negation(p: int, d: int)
    requires
        p >= 0,
        d > 0,
    ensures
        ceil_div(-p, d) == -(p / d),
{
    let q = p / d;
    let r = p % d;
    lemma_fundamental_div_mod(p, d);
    lemma_mod_bound(p, d);
    assert(p == d * q + r);
    if r == 0 {
        assert(-p == (-q) * d + 0) by (nonlinear_arith)
            requires
                p == d * q + r,
                r == 0,
        ;
        lemma_fundamental_div_mod_converse(-p, d, -q, 0);
    } else {
        assert(-p == (-q - 1) * d + (d - r)) by (nonlinear_arith)
            requires
                p == d * q + r,
        ;
        lemma_fundamental_div_mod_converse(-p, d, -q - 1, d - r);
    }
}

/// A product that does not fit in 128 bits, divided by at most a million, is
/// beyond every `i64`.
proof fn lemma_huge_quotient(p: int, d: int)
    requires
        p > u128::MAX,
        0 < d <= 1_000_000,
    ensures
        p / d > 0x1_0000_0000_0000_0000,
{
    let big: int = 0x1_0000_0000_0000_0001;
    assert(big * d <= p) by (nonlinear_arith)
        requires
            big == 0x1_0000_0000_0000_0001,
            p > 0xffff_ffff_ffff_ffff_ffff_ffff_ffff_ffff,
            0 < d <= 1_000_000,
    ;
    lemma_div_is_ordered(big * d, p, d);
    lemma_div_multiples_vanish(big, d);
}

/// `interval * numerator / denominator`, rounded upward and brought into the
/// range of `i64`.
fn scale_days(interval: i64, numerator: u128, denominator: u128) -> (days: i64)
    requires
        0 < denominator <= 1_000_000,
    ensures
        days == clamp_to_i64(ceil_div(interval * numerator, denominator as int)),
{
    let d = denominator;
    if interval >= 0 {
        let magnitude: u128 = interval as u128;
        match magnitude.checked_mul(numerator) {
            None => {
                proof {
                    let p = interval * numerator;
                    lemma_huge_quotient(p, d as int);
                }
                i64::MAX
            },
            Some(p) => {
                let q: u128 = p / d;
                if q >= i64::MAX as u128 {
                    i64::MAX
                } else if p % d == 0 {
                    q as i64
                } else {
                    (q + 1) as i64
                }
            },
        }
    } else {
        let magnitude: u128 = (-(interval as i128)) as u128;
        assert(interval * numerator == -(magnitude * numerator)) by (nonlinear_arith)
            requires
                magnitude == -interval,
        ;
        assert(magnitude * numerator >= 0) by (nonlinear_arith)
            requires
                magnitude >= 0,
                numerator >= 0,
        ;
        proof {
            lemma_ceil_div_of_negation(magnitude * numerator, d as int);
        }
        match magnitude.checked_mul(numerator) {
            None => {
                proof {
                    lemma_huge_quotient(magnitude * numerator, d as int);
                }
                i64::MIN
            },
            Some(p) => {
                let q: u128 = p / d;
                if q > 0x8000_0000_0000_0000u128 {
                    i64::MIN
                } else {
                    (-(q as i128)) as i64
                }
            },
        }
    }
}

/// The ease factor lowered by `step`, but not below 1.3.
fn lower_ease(ease: u64, step: u64) -> (r: u64)
    ensures
        r == lowered_ease(ease as int, step as int),
{
    if ease > step && ease - step > MIN_EASE_FACTOR {
        ease - step
    } else {
        MIN_EASE_FACTOR
    }
}

/// The interval and ease factor that SM-2 gives.
fn sm2_step(card: &Card, difficulty: &ReviewDifficulty) -> (r: (i64, u64))
    ensures
        r.0 == sm2_interval(
            card.interval as int,
            card.ease_factor as int,
            card.review_count as int,
            *difficulty,
        ),
        r.1 == sm2_ease(card.ease_factor as int, *difficulty),
{
    match difficulty {
        ReviewDifficulty::Again => (1, lower_ease(card.ease_factor, 200)),
        ReviewDifficulty::Hard => (
            scale_days(card.interval, 1200, 1000),
            lower_ease(card.ease_factor, 150),
        ),
        ReviewDifficulty::Good => {
            let interval: i64 = if card.review_count == 0 {
                1
            } else if card.review_count == 1 {
                6
            } else {
                scale_days(card.interval, card.ease_factor as u128, 1000)
            };
            (interval, card.ease_factor)
        },
        ReviewDifficulty::Easy => {
            let interval: i64 = if card.review_count == 0 {
                4
            } else if card.review_count == 1 {
                6
            } else {
                let numerator: u128 = (card.ease_factor as u128) * 1300;
                proof {
                    lemma_mul_is_associative(
                        card.interval as int,
                        card.ease_factor as int,
                        1300,
                    );
                }
                scale_days(card.interval, numerator, 1_000_000)
            };
            (interval, card.ease_factor.saturating_add(150))
        },
    }
}

/// The box and interval that the Leitner rule gives.
fn leitner_step(
    card: &Card,
    difficulty: &ReviewDifficulty,
    settings: &AppSettings,
) -> (r: (i64, u32))
    ensures
        r.1 == leitner_box_after(
            card.leitner_box as int,
            *difficulty,
            settings@.leitner_intervals.len() as int,
        ),
        r.0 == leitner_interval(settings@.leitner_intervals, r.1 as int),
{
    let boxes: usize = settings.leitner_intervals.len();
    let last: u64 = if boxes > 0 {
        (boxes - 1) as u64
    } else {
        0
    };
    let target: u64 = match difficulty {
        ReviewDifficulty::Again => 0,
        ReviewDifficulty::Hard => card.leitner_box as u64,
        _ => card.leitner_box as u64 + 1,
    };
    let capped: u64 = if target > last {
        last
    } else {
        target
    };
    let index: u32 = if capped > u32::MAX as u64 {
        u32::MAX
    } else {
        capped as u32
    };
    let interval: i64 = if (index as usize) < boxes {
        let days: i64 = settings.leitner_intervals[index as usize];
        if days < 0 {
            0
        } else {
            days
        }
    } else {
        1
    };
    (interval, index)
}

/// The factor and interval that the exponential rule gives.
fn exponential_step(
    card: &Card,
    difficulty: &ReviewDifficulty,
    settings: &AppSettings,
) -> (r: (i64, u64))
    ensures
        r.1 == exponential_factor_after(
            card.exponential_factor as int,
            settings.exponential_base as int,
            *difficulty,
        ),
        r.0 == exponential_interval(r.1 as int),
{
    let factor: u64 = match difficulty {
        ReviewDifficulty::Again => DECIMAL_ONE,
        ReviewDifficulty::Hard => card.exponential_factor,
        _ => {
            assert(card.exponential_factor * settings.exponential_base
                <= 0xffff_ffff_ffff_ffff * 0xffff_ffff_ffff_ffff) by (nonlinear_arith)
                requires
                    0 <= card.exponential_factor <= 0xffff_ffff_ffff_ffff,
                    0 <= settings.exponential_base <= 0xffff_ffff_ffff_ffff,
            ;
            let product: u128 = (card.exponential_factor as u128)
                * (settings.exponential_base as u128);
            let rounded: u128 = (product + 500) / 1000;
            if rounded > u64::MAX as u128 {
                u64::MAX
            } else {
                rounded as u64
            }
        },
    };
    let days: u64 = (factor / 1000) + (if factor % 1000 >= 500 {
        1u64
    } else {
        0u64
    });
    let interval: i64 = if days < 1 {
        1
    } else {
        days as i64
    };
    (interval, factor)
}

/// The scheduling rules.
pub struct SpacedRepetition;

impl SpacedRepetition {
    /// What a review at `now` decides for `card`: the new interval, ease
    /// factor, next review, Leitner box and exponential factor. The rule is
    /// the one that `settings` names; a field that the rule does not use
    /// comes back as the card holds it. The next review lies `interval` days
    /// after `now`.
    pub fn calculate_next_review_at(
        card: &Card,
        difficulty: &ReviewDifficulty,
        settings: &AppSettings,
        now: Timestamp,
    ) -> (r: (i64, u64, Timestamp, u32, u64))
        ensures
            (r.0 as int, r.1 as int, r.2, r.3 as int, r.4 as int) == next_review_of(
                card@,
                *difficulty,
                settings@,
                now,
            ),
    {
        match settings.algorithm {
            SpacedRepetitionAlgorithm::SM2 => {
                let (interval, ease) = sm2_step(card, difficulty);
                (
                    interval,
                    ease,
                    now.add_days(interval),
                    card.leitner_box,
                    card.exponential_factor,
                )
            },
            SpacedRepetitionAlgorithm::Leitner => {
                let (interval, index) = leitner_step(card, difficulty, settings);
                (interval, card.ease_factor, now.add_days(interval), index, card.exponential_factor)
            },
            SpacedRepetitionAlgorithm::SimpleExponential => {
                let (interval, factor) = exponential_step(card, difficulty, settings);
                (interval, card.ease_factor, now.add_days(interval), card.leitner_box, factor)
            },
        }
    }
    /// What a review decides for `card` at the instant the clock shows: the
    /// outcome of `calculate_next_review_at` for that instant.
    pub fn calculate_next_review(
        card: &Card,
        difficulty: &ReviewDifficulty,
        settings: &AppSettings,
    ) -> (r: (i64, u64, Timestamp, u32, u64))
        ensures
            exists|t: Timestamp|
                (r.0 as int, r.1 as int, r.2, r.3 as int, r.4 as int) == #[trigger] next_review_of(
                    card@,
                    *difficulty,
                    settings@,
                    t,
                ),
    {
        let t = now();
        let r = Self::calculate_next_review_at(card, difficulty, settings, t);
        assert((r.0 as int, r.1 as int, r.2, r.3 as int, r.4 as int) == next_review_of(
            card@,
            *difficulty,
            settings@,
            t,
        ));
        r
    }

    /// Whether `card` is due at `now`.
    pub fn is_due_at(card: &Card, now: Timestamp) -> (r: bool)
        ensures
            r == is_due_at(card@, now),
    {
        card.next_review.is_not_after(&now)
    }

    /// Whether `card` is due at the instant the clock shows.
    pub fn is_due(card: &Card) -> (r: bool)
        ensures
            exists|t: Timestamp| r == #[trigger] is_due_at(card@, t),
    {
        let t = now();
        let r = Self::is_due_at(card, t);
        assert(r == is_due_at(card@, t));
        r
    }

    /// Copies of the cards of `cards` that are due at `now`, in their order.
    pub fn get_due_cards_from_vec_at(cards: &[Card], now: Timestamp) -> (due: Vec<Card>)
        ensures
            card_views(due@) == due_cards(card_views(cards@), now),
    {
        let ghost all = card_views(cards@);
        let mut due: Vec<Card> = Vec::new();
        let mut i: usize = 0;
        proof {
            lemma_filter_empty(due_at(now));
            assert(all.take(0) =~= Seq::<CardView>::empty());
            assert(card_views(due@) =~= Seq::<CardView>::empty());
        }
        while i < cards.len()
            invariant
                i <= cards.len(),
                all == card_views(cards@),
                card_views(due@) == all.take(i as int).filter(due_at(now)),
            decreases cards.len() - i,
        {
            proof {
                lemma_filter_next(all, due_at(now), i as int);
            }
            if Self::is_due_at(&cards[i], now) {
                let ghost before = card_views(due@);
                due.push(cards[i].clone());
                assert(card_views(due@) =~= before.push(all[i as int]));
            }
            i += 1;
        }
        assert(all.take(cards.len() as int) =~= all);
        due
    }

    /// Copies of the cards of `cards` that are due at the instant the clock
    /// shows.
    pub fn get_due_cards_from_vec(cards: &[Card]) -> (due: Vec<Card>)
        ensures
            exists|t: Timestamp|
                card_views(due@) == #[trigger] due_cards(card_views(cards@), t),
    {
        let t = now();
        let due = Self::get_due_cards_from_vec_at(cards, t);
        assert(card_views(due@) == due_cards(card_views(cards@), t));
        due
    }

    /// Copies of the cards of the collection that are due at `now`, in the
    /// order of the collection.
    pub fn get_due_cards_at(cards: &CardCollection, now: Timestamp) -> (due: Vec<Card>)
        ensures
            card_views(due@) == due_cards(cards@, now),
    {
        Self::get_due_cards_from_vec_at(cards.values().as_slice(), now)
    }

    /// Copies of the cards of the collection that are due at the instant the
    /// clock shows.
    pub fn get_due_cards(cards: &CardCollection) -> (due: Vec<Card>)
        ensures
            exists|t: Timestamp| card_views(due@) == #[trigger] due_cards(cards@, t),
    {
        let t = now();
        let due = Self::get_due_cards_at(cards, t);
        assert(card_views(due@) == due_cards(cards@, t));
        due
    }

    /// The counts over the collection at `now`: all cards, those due, those
    /// never reviewed, those in learning and those mature.
    pub fn calculate_stats_at(cards: &CardCollection, now: Timestamp) -> (stats: ReviewStats)
        ensures
            stats_match(stats, cards@, now),
    {
        let list = cards.values();
        let ghost all = cards@;
        let mut cards_due: usize = 0;
        let mut cards_new: usize = 0;
        let mut cards_learning: usize = 0;
        let mut cards_mature: usize = 0;
        let mut i: usize = 0;
        proof {
            assert(all.take(0) =~= Seq::<CardView>::empty());
            lemma_filter_empty(due_at(now));
            lemma_filter_empty(never_reviewed());
            lemma_filter_empty(in_learning());
            lemma_filter_empty(is_mature());
        }
        while i < list.len()
            invariant
                i <= list.len(),
                all == card_views(list@),
                cards_due == all.take(i as int).filter(due_at(now)).len(),
                cards_new == all.take(i as int).filter(never_reviewed()).len(),
                cards_learning == all.take(i as int).filter(in_learning()).len(),
                cards_mature == all.take(i as int).filter(is_mature()).len(),
                cards_due <= i,
                cards_new <= i,
                cards_learning <= i,
                cards_mature <= i,
            decreases list.len() - i,
        {
            proof {
                lemma_filter_next(all, due_at(now), i as int);
                lemma_filter_next(all, never_reviewed(), i as int);
                lemma_filter_next(all, in_learning(), i as int);
                lemma_filter_next(all, is_mature(), i as int);
            }
            let card = &list[i];
            if Self::is_due_at(card, now) {
                cards_due += 1;
            }
            if card.review_count == 0 {
                cards_new += 1;
            }
            if card.review_count > 0 && card.interval < 21 {
                cards_learning += 1;
            }
            if card.interval >= 21 {
                cards_mature += 1;
            }
            i += 1;
        }
        assert(all.take(list.len() as int) =~= all);
        ReviewStats { total_cards: list.len(), cards_due, cards_new, cards_learning, cards_mature }
    }

    /// The counts over the collection at the instant the clock shows.
    pub fn calculate_stats(cards: &CardCollection) -> (stats: ReviewStats)
        ensures
            exists|t: Timestamp| #[trigger] stats_match(stats, cards@, t),
    {
        let t = now();
        let stats = Self::calculate_stats_at(cards, t);
        assert(stats_match(stats, cards@, t));
        stats
    }
}

} // verus!
