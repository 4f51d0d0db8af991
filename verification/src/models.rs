//! The card, the review outcome, the settings and the report types.

use vstd::prelude::*;
use vstd::string::*;
use crate::card_time::Timestamp;

verus! {

/// One whole in a decimal field. `ease_factor`, `exponential_factor` and
/// `exponential_base` count thousandths: 1000 stands for 1, 2500 for 2.5.
pub const DECIMAL_ONE: u64 = 1000;

/// The ease factor of a new card, 2.5.
pub const INITIAL_EASE_FACTOR: u64 = 2500;

/// The lowest ease factor that a review leaves, 1.3.
pub const MIN_EASE_FACTOR: u64 = 1300;

/// The text of an optional string.
pub open spec fn text_of(s: Option<String>) -> Option<Seq<char>> {
    match s {
        Some(t) => Some(t@),
        None => None,
    }
}

/// A copy of an optional string.
pub fn clone_text(s: &Option<String>) -> (r: Option<String>)
    ensures
        r == *s,
{
    match s {
        Some(t) => Some(t.clone()),
        None => None,
    }
}

/// A flashcard with its review state.
#[derive(Debug)]
pub struct Card {
    pub id: String,
    pub front: String,
    pub back: String,
    pub tag: Option<String>,
    pub created_at: Timestamp,
    pub last_reviewed: Option<Timestamp>,
    pub next_review: Timestamp,
    /// Days between the last review and the next.
    pub interval: i64,
    /// The ease factor of the SM-2 rule, in thousandths.
    pub ease_factor: u64,
    pub review_count: u32,
    pub correct_count: u32,
    /// The box the card lies in under the Leitner rule, counted from 0.
    pub leitner_box: u32,
    /// The factor of the exponential rule, in thousandths.
    pub exponential_factor: u64,
}

/// What a card holds, as plain values.
pub struct CardView {
    pub id: Seq<char>,
    pub front: Seq<char>,
    pub back: Seq<char>,
    pub tag: Option<Seq<char>>,
    pub created_at: Timestamp,
    pub last_reviewed: Option<Timestamp>,
    pub next_review: Timestamp,
    pub interval: int,
    pub ease_factor: int,
    pub review_count: int,
    pub correct_count: int,
    pub leitner_box: int,
    pub exponential_factor: int,
}

impl View for Card {
    type V = CardView;

    open spec fn view(&self) -> CardView {
        CardView {
            id: self.id@,
            front: self.front@,
            back: self.back@,
            tag: text_of(self.tag),
            created_at: self.created_at,
            last_reviewed: self.last_reviewed,
            next_review: self.next_review,
            interval: self.interval as int,
            ease_factor: self.ease_factor as int,
            review_count: self.review_count as int,
            correct_count: self.correct_count as int,
            leitner_box: self.leitner_box as int,
            exponential_factor: self.exponential_factor as int,
        }
    }
}

impl CardView {
    /// What the data model asks of every card: a non-negative interval, an
    /// ease factor of at least 1.3, and no more correct answers than reviews.
    pub open spec fn well_formed(self) -> bool {
        &&& self.interval >= 0
        &&& self.ease_factor >= MIN_EASE_FACTOR
        &&& 0 <= self.correct_count <= self.review_count
    }
}

impl Clone for Card {
    fn clone(&self) -> (r: Card)
        ensures
            r == *self,
    {
        Card {
            id: self.id.clone(),
            front: self.front.clone(),
            back: self.back.clone(),
            tag: clone_text(&self.tag),
            created_at: self.created_at,
            last_reviewed: self.last_reviewed,
            next_review: self.next_review,
            interval: self.interval,
            ease_factor: self.ease_factor,
            review_count: self.review_count,
            correct_count: self.correct_count,
            leitner_box: self.leitner_box,
            exponential_factor: self.exponential_factor,
        }
    }
}

/// The views of a sequence of cards, in the same order.
pub open spec fn card_views(cards: Seq<Card>) -> Seq<CardView> {
    cards.map_values(|c: Card| c@)
}

/// How well a card was recalled at a review.
#[derive(Clone, Copy, Debug, PartialEq, Eq, Structural)]
pub enum ReviewDifficulty {
    /// Not recalled.
    Again,
    /// Recalled with difficulty.
    Hard,
    /// Recalled.
    Good,
    /// Recalled with ease.
    Easy,
}

/// The decimal digit `d` as a character.
pub open spec fn digit_char(d: int) -> char {
    if d == 0 {
        '0'
    } else if d == 1 {
        '1'
    } else if d == 2 {
        '2'
    } else if d == 3 {
        '3'
    } else if d == 4 {
        '4'
    } else if d == 5 {
        '5'
    } else if d == 6 {
        '6'
    } else if d == 7 {
        '7'
    } else if d == 8 {
        '8'
    } else {
        '9'
    }
}

/// `n` written in decimal, without leading zeros.
pub open spec fn decimal_text(n: nat) -> Seq<char>
    decreases n,
{
    if n < 10 {
        seq![digit_char(n as int)]
    } else {
        decimal_text(n / 10).push(digit_char((n % 10) as int))
    }
}

/// The message for a difficulty code outside 0 to 3.
pub open spec fn invalid_difficulty_message(value: u8) -> Seq<char> {
    "Invalid difficulty value: "@ + decimal_text(value as nat)
}

fn digit_str(d: u8) -> (s: &'static str)
    requires
        d < 10,
    ensures
        s@ == seq![digit_char(d as int)],
{
    proof {
        reveal_strlit("0");
        reveal_strlit("1");
        reveal_strlit("2");
        reveal_strlit("3");
        reveal_strlit("4");
        reveal_strlit("5");
        reveal_strlit("6");
        reveal_strlit("7");
        reveal_strlit("8");
        reveal_strlit("9");
    }
    let s = match d {
        0 => "0",
        1 => "1",
        2 => "2",
        3 => "3",
        4 => "4",
        5 => "5",
        6 => "6",
        7 => "7",
        8 => "8",
        _ => "9",
    };
    assert(s@ =~= seq![digit_char(d as int)]);
    s
}

/// Appends `n` in decimal to `out`.
fn append_decimal(out: &mut String, n: u8)
    ensures
        final(out)@ == old(out)@ + decimal_text(n as nat),
{
    if n >= 100 {
        out.append(digit_str(n / 100));
        out.append(digit_str((n / 10) % 10));
        out.append(digit_str(n % 10));
        proof {
            let m = n as nat;
            assert(decimal_text(m / 100) == seq![digit_char((m / 100) as int)]);
            assert((m / 10) / 10 == m / 100);
            assert(decimal_text(m / 10) == decimal_text(m / 100).push(
                digit_char(((m / 10) % 10) as int),
            ));
            assert(final(out)@ =~= old(out)@ + decimal_text(m));
        }
    } else if n >= 10 {
        out.append(digit_str(n / 10));
        out.append(digit_str(n % 10));
        proof {
            let m = n as nat;
            assert(decimal_text(m / 10) == seq![digit_char((m / 10) as int)]);
            assert(final(out)@ =~= old(out)@ + decimal_text(m));
        }
    } else {
        out.append(digit_str(n));
        proof {
            assert(final(out)@ =~= old(out)@ + decimal_text(n as nat));
        }
    }
}

impl ReviewDifficulty {
    /// The outcome that the code 0 to 3 stands for.
    pub open spec fn of_code(value: u8) -> Option<ReviewDifficulty> {
        if value == 0 {
            Some(ReviewDifficulty::Again)
        } else if value == 1 {
            Some(ReviewDifficulty::Hard)
        } else if value == 2 {
            Some(ReviewDifficulty::Good)
        } else if value == 3 {
            Some(ReviewDifficulty::Easy)
        } else {
            None
        }
    }

    /// Good and Easy count as correct answers.
    pub open spec fn is_correct(self) -> bool {
        self == ReviewDifficulty::Good || self == ReviewDifficulty::Easy
    }

    /// Reads an outcome from its code: 0 is Again, 1 Hard, 2 Good, 3 Easy.
    /// Any other code is refused with a message that names it.
    pub fn from_u8(value: u8) -> (r: Result<ReviewDifficulty, String>)
        ensures
            match r {
                Ok(d) => Self::of_code(value) == Some(d),
                Err(e) => Self::of_code(value).is_none() && e@ == invalid_difficulty_message(
                    value,
                ),
            },
    {
        match value {
            0 => Ok(ReviewDifficulty::Again),
            1 => Ok(ReviewDifficulty::Hard),
            2 => Ok(ReviewDifficulty::Good),
            3 => Ok(ReviewDifficulty::Easy),
            _ => {
                let mut message = String::from_str("Invalid difficulty value: ");
                append_decimal(&mut message, value);
                Err(message)
            },
        }
    }

    /// Whether the outcome counts as a correct answer.
    pub fn counts_as_correct(&self) -> (r: bool)
        ensures
            r == self.is_correct(),
    {
        match self {
            ReviewDifficulty::Good | ReviewDifficulty::Easy => true,
            _ => false,
        }
    }
}

/// Counts over a whole collection.
#[derive(Clone, Copy, Debug, PartialEq, Eq, Structural)]
pub struct ReviewStats {
    pub total_cards: usize,
    /// Cards whose next review is now or earlier.
    pub cards_due: usize,
    /// Cards never reviewed.
    pub cards_new: usize,
    /// Cards reviewed at least once, with an interval under 21 days.
    pub cards_learning: usize,
    /// Cards with an interval of 21 days or more.
    pub cards_mature: usize,
}

/// What it takes to create a card.
#[derive(Debug)]
pub struct CreateCardRequest {
    pub front: String,
    pub back: String,
    pub tag: Option<String>,
}

/// The fields of a card that an edit replaces.
#[derive(Debug)]
pub struct UpdateCardRequest {
    pub front: String,
    pub back: String,
    pub tag: Option<String>,
}

/// A search: a text to look for in front and back, a tag to match, or both.
#[derive(Debug)]
pub struct SearchRequest {
    pub query: Option<String>,
    pub tag: Option<String>,
    /// Carried for the caller; the search does not read it.
    pub tags: Option<Vec<String>>,
}

/// The cards to re-tag, and the tag they get.
#[derive(Debug)]
pub struct BulkUpdateRequest {
    pub card_ids: Vec<String>,
    pub tag: Option<String>,
}

/// Counts over the cards of one tag.
#[derive(Debug)]
pub struct TagStats {
    pub name: String,
    pub total_cards: usize,
    /// Cards whose next review is now or earlier.
    pub cards_due: usize,
    /// Cards never reviewed.
    pub cards_new: usize,
    /// Cards reviewed five times or more.
    pub cards_mature: usize,
}

/// What a tag report holds, as plain values.
pub struct TagStatsView {
    pub name: Seq<char>,
    pub total_cards: int,
    pub cards_due: int,
    pub cards_new: int,
    pub cards_mature: int,
}

impl View for TagStats {
    type V = TagStatsView;

    open spec fn view(&self) -> TagStatsView {
        TagStatsView {
            name: self.name@,
            total_cards: self.total_cards as int,
            cards_due: self.cards_due as int,
            cards_new: self.cards_new as int,
            cards_mature: self.cards_mature as int,
        }
    }
}

/// The views of a sequence of tag reports, in the same order.
pub open spec fn tag_stats_views(stats: Seq<TagStats>) -> Seq<TagStatsView> {
    stats.map_values(|s: TagStats| s@)
}

/// The rule that schedules the next review.
#[derive(Clone, Copy, Debug, PartialEq, Eq, Structural)]
pub enum SpacedRepetitionAlgorithm {
    /// Ease factor and growing interval, after SuperMemo 2.
    SM2,
    /// A row of boxes, each with its own interval.
    Leitner,
    /// An interval that grows by a fixed factor.
    SimpleExponential,
}

impl Default for SpacedRepetitionAlgorithm {
    fn default() -> (r: SpacedRepetitionAlgorithm)
        ensures
            r == SpacedRepetitionAlgorithm::SM2,
    {
        SpacedRepetitionAlgorithm::SM2
    }
}

/// The rule in force and its parameters.
#[derive(Debug)]
pub struct AppSettings {
    pub algorithm: SpacedRepetitionAlgorithm,
    /// The interval in days of each Leitner box, first box first.
    pub leitner_intervals: Vec<i64>,
    /// The factor by which a correct answer multiplies the exponential
    /// factor, in thousandths.
    pub exponential_base: u64,
}

/// What the settings hold, as plain values.
pub struct AppSettingsView {
    pub algorithm: SpacedRepetitionAlgorithm,
    pub leitner_intervals: Seq<int>,
    pub exponential_base: int,
}

impl View for AppSettings {
    type V = AppSettingsView;

    open spec fn view(&self) -> AppSettingsView {
        AppSettingsView {
            algorithm: self.algorithm,
            leitner_intervals: self.leitner_intervals@.map_values(|d: i64| d as int),
            exponential_base: self.exponential_base as int,
        }
    }
}

impl AppSettingsView {
    /// SM-2, five boxes of 1, 3, 7, 14 and 30 days, and a base of 2.
    pub open spec fn initial() -> AppSettingsView {
        AppSettingsView {
            algorithm: SpacedRepetitionAlgorithm::SM2,
            leitner_intervals: seq![1int, 3int, 7int, 14int, 30int],
            exponential_base: 2000,
        }
    }
}

impl Clone for AppSettings {
    fn clone(&self) -> (r: AppSettings)
        ensures
            r@ == self@,
    {
        let mut boxes: Vec<i64> = Vec::new();
        let mut i: usize = 0;
        while i < self.leitner_intervals.len()
            invariant
                i <= self.leitner_intervals.len(),
                boxes@ == self.leitner_intervals@.take(i as int),
            decreases self.leitner_intervals.len() - i,
        {
            boxes.push(self.leitner_intervals[i]);
            assert(self.leitner_intervals@.take(i + 1) =~= self.leitner_intervals@.take(
                i as int,
            ).push(self.leitner_intervals@[i as int]));
            i += 1;
        }
        assert(boxes@ =~= self.leitner_intervals@);
        AppSettings {
            algorithm: self.algorithm,
            leitner_intervals: boxes,
            exponential_base: self.exponential_base,
        }
    }
}

impl Default for AppSettings {
    fn default() -> (r: AppSettings)
        ensures
            r@ == AppSettingsView::initial(),
    {
        let mut boxes: Vec<i64> = Vec::new();
        boxes.push(1);
        boxes.push(3);
        boxes.push(7);
        boxes.push(14);
        boxes.push(30);
        let r = AppSettings {
            algorithm: SpacedRepetitionAlgorithm::SM2,
            leitner_intervals: boxes,
            exponential_base: 2000,
        };
        assert(r@.leitner_intervals =~= AppSettingsView::initial().leitner_intervals);
        r
    }
}

} // verus!
