//! The card service: the collection and the settings, and every operation on
//! them. An operation that changes the cards or the settings notes that a
//! snapshot is owed to the store; writing it is the caller's part.

use vstd::prelude::*;
use vstd::string::*;
use crate::card_time::{now, Timestamp};
use crate::collection::{
    collected, distinct_ids, find_card, has_id, index_of_id, lemma_index_of_id, other_than,
    with_card, without_id, CardCollection,
};
use crate::models::{
    card_views, clone_text, tag_stats_views, text_of, AppSettings, AppSettingsView,
    BulkUpdateRequest, Card, CardView, CreateCardRequest, ReviewDifficulty, ReviewStats,
    SearchRequest, TagStats, UpdateCardRequest, DECIMAL_ONE, INITIAL_EASE_FACTOR,
    MIN_EASE_FACTOR,
};
use crate::sequences::{
    lemma_filter_empty, lemma_filter_keeps_all, lemma_filter_next, lemma_filter_twice,
};
use crate::spaced_repetition::{
    due_at, due_cards, is_due_at, lemma_again_never_raises_ease, lemma_next_review_is_well_formed,
    next_review_of, stats_match, SpacedRepetition,
};
use crate::tags::{collect_tag_stats, collect_tags, tag_stats_match, tags_match};
use crate::text::{found_in_either, has_substring, lowercase, lowercase_of, texts_of};

verus! {

/// The card that a request creates under the id `id` at `now`: ease factor
/// 2.5, interval 0, never reviewed, first box, exponential factor 1, and due
/// from the instant of its creation.
pub open spec fn new_card(
    id: Seq<char>,
    front: Seq<char>,
    back: Seq<char>,
    tag: Option<Seq<char>>,
    now: Timestamp,
) -> CardView {
    CardView {
        id,
        front,
        back,
        tag,
        created_at: now,
        last_reviewed: None,
        next_review: now,
        interval: 0,
        ease_factor: INITIAL_EASE_FACTOR as int,
        review_count: 0,
        correct_count: 0,
        leitner_box: 0,
        exponential_factor: DECIMAL_ONE as int,
    }
}

/// `card` with other texts and another tag. Nothing of its review state
/// changes.
pub open spec fn edited(
    card: CardView,
    front: Seq<char>,
    back: Seq<char>,
    tag: Option<Seq<char>>,
) -> CardView {
    CardView { front, back, tag, ..card }
}

/// A counter one higher; a counter that has reached the largest value the
/// field holds stays.
pub open spec fn counted_up(count: int) -> int {
    if count < u32::MAX {
        count + 1
    } else {
        count
    }
}

/// `card` after a review at `now`: the scheduling rule decides interval,
/// factors, box and next review; the review is counted, and counted as
/// correct for Good and Easy.
pub open spec fn reviewed(
    card: CardView,
    difficulty: ReviewDifficulty,
    settings: AppSettingsView,
    now: Timestamp,
) -> CardView {
    let outcome = next_review_of(card, difficulty, settings, now);
    CardView {
        last_reviewed: Some(now),
        next_review: outcome.2,
        interval: outcome.0,
        ease_factor: outcome.1,
        leitner_box: outcome.3,
        exponential_factor: outcome.4,
        review_count: counted_up(card.review_count),
        correct_count: if difficulty.is_correct() {
            counted_up(card.correct_count)
        } else {
            card.correct_count
        },
        ..card
    }
}

/// The search text stands in the front or in the back of the card, case
/// apart. A search without a text passes every card.
pub open spec fn query_matches(card: CardView, query: Option<Seq<char>>) -> bool {
    match query {
        Some(q) => has_substring(lowercase_of(card.front), lowercase_of(q)) || has_substring(
            lowercase_of(card.back),
            lowercase_of(q),
        ),
        None => true,
    }
}

/// The card has exactly the tag searched for. A search without a tag passes
/// every card.
pub open spec fn tag_matches(card: CardView, tag: Option<Seq<char>>) -> bool {
    match tag {
        Some(t) => card.tag == Some(t),
        None => true,
    }
}

/// The test that a card passes both filters of a search.
pub open spec fn search_hit(query: Option<Seq<char>>, tag: Option<Seq<char>>) -> spec_fn(
    CardView,
) -> bool {
    |c: CardView| query_matches(c, query) && tag_matches(c, tag)
}

/// `card` with another tag.
pub open spec fn retagged(card: CardView, tag: Option<Seq<char>>) -> CardView {
    CardView { tag, ..card }
}

/// Gives the cards whose id is in `ids` the tag `tag` and leaves the others.
pub open spec fn retag_listed(ids: Seq<Seq<char>>, tag: Option<Seq<char>>) -> spec_fn(
    CardView,
) -> CardView {
    |c: CardView|
        if ids.contains(c.id) {
            retagged(c, tag)
        } else {
            c
        }
}

/// The test that some card of `cards` has an id.
pub open spec fn present_in(cards: Seq<CardView>) -> spec_fn(Seq<char>) -> bool {
    |id: Seq<char>| has_id(cards, id)
}

/// The card of `cards` with an id, under the tag `tag`.
pub open spec fn retag_found(cards: Seq<CardView>, tag: Option<Seq<char>>) -> spec_fn(
    Seq<char>,
) -> CardView {
    |id: Seq<char>| retagged(cards[index_of_id(cards, id)], tag)
}

/// What a bulk re-tag hands back: for each of `ids` that some card has, in
/// the order of `ids`, that card under its new tag. An id that stands twice
/// in `ids` gives its card twice.
pub open spec fn retagged_list(
    cards: Seq<CardView>,
    ids: Seq<Seq<char>>,
    tag: Option<Seq<char>>,
) -> Seq<CardView> {
    ids.filter(present_in(cards)).map_values(retag_found(cards, tag))
}

/// The test that a card's id is not among `ids`.
pub open spec fn not_listed(ids: Seq<Seq<char>>) -> spec_fn(CardView) -> bool {
    |c: CardView| !ids.contains(c.id)
}

/// Some card of `cards` has one of `ids`.
pub open spec fn any_present(cards: Seq<CardView>, ids: Seq<Seq<char>>) -> bool {
    exists|j: int| 0 <= j < ids.len() && has_id(cards, #[trigger] ids[j])
}

/// Re-tagging changes no id: a card stands where it stood.
proof fn lemma_retag_keeps_ids(
    cards: Seq<CardView>,
    ids: Seq<Seq<char>>,
    tag: Option<Seq<char>>,
    id: Seq<char>,
)
    requires
        distinct_ids(cards),
    ensures
        distinct_ids(cards.map_values(retag_listed(ids, tag))),
        has_id(cards.map_values(retag_listed(ids, tag)), id) == has_id(cards, id),
        has_id(cards, id) ==> index_of_id(cards.map_values(retag_listed(ids, tag)), id)
            == index_of_id(cards, id),
{
    let after = cards.map_values(retag_listed(ids, tag));
    assert forall|k: int| 0 <= k < cards.len() implies (#[trigger] after[k]).id == cards[k].id by {}
    assert forall|i: int, j: int| 0 <= i < j < after.len() implies (#[trigger] after[i]).id != (
    #[trigger] after[j]).id by {
        assert(cards[i].id != cards[j].id);
    }
    if has_id(cards, id) {
        let k = index_of_id(cards, id);
        assert(after[k].id == id);
        lemma_index_of_id(after, k);
    }
    if has_id(after, id) {
        let k = index_of_id(after, id);
        assert(cards[k].id == id);
    }
}

/// One step of a bulk re-tag: with the cards whose id is among the first `i`
/// of `ids` re-tagged, re-tagging the card of the next id, if there is one,
/// gives the cards with the first `i + 1` re-tagged, and adds that card to
/// the list handed back.
proof fn lemma_retag_next(
    cards: Seq<CardView>,
    ids: Seq<Seq<char>>,
    tag: Option<Seq<char>>,
    i: int,
)
    requires
        distinct_ids(cards),
        0 <= i < ids.len(),
    ensures
        ({
            let current = cards.map_values(retag_listed(ids.take(i), tag));
            let next = cards.map_values(retag_listed(ids.take(i + 1), tag));
            let id = ids[i];
            if has_id(current, id) {
                let card = retagged(find_card(current, id).unwrap(), tag);
                &&& next == with_card(current, card)
                &&& retagged_list(cards, ids.take(i + 1), tag) == retagged_list(
                    cards,
                    ids.take(i),
                    tag,
                ).push(card)
            } else {
                &&& next == current
                &&& retagged_list(cards, ids.take(i + 1), tag) == retagged_list(
                    cards,
                    ids.take(i),
                    tag,
                )
            }
        }),
{
    let current = cards.map_values(retag_listed(ids.take(i), tag));
    let next = cards.map_values(retag_listed(ids.take(i + 1), tag));
    let id = ids[i];
    lemma_retag_keeps_ids(cards, ids.take(i), tag, id);
    lemma_filter_next(ids, present_in(cards), i);
    assert(ids.take(i + 1) =~= ids.take(i).push(id));
    assert forall|x: Seq<char>| #[trigger]
        ids.take(i + 1).contains(x) == (ids.take(i).contains(x) || x == id) by {
        if ids.take(i).contains(x) {
            let j = choose|j: int| 0 <= j < ids.take(i).len() && ids.take(i)[j] == x;
            assert(ids.take(i + 1)[j] == x);
        }
        if x == id {
            assert(ids.take(i + 1)[i] == x);
        }
    }
    if has_id(cards, id) {
        let k = index_of_id(cards, id);
        lemma_index_of_id(cards, k);
        lemma_index_of_id(current, k);
        let card = retagged(current[k], tag);
        assert(card == retagged(cards[k], tag));
        assert forall|m: int| 0 <= m < cards.len() implies #[trigger] next[m] == current.update(
            k,
            card,
        )[m] by {
            if m != k {
                if m < k {
                    assert(cards[m].id != cards[k].id);
                } else {
                    assert(cards[k].id != cards[m].id);
                }
            }
        }
        assert(next =~= current.update(k, card));
        let shown = ids.take(i).filter(present_in(cards));
        assert(shown.push(id).map_values(retag_found(cards, tag)) =~= shown.map_values(
            retag_found(cards, tag),
        ).push(card));
    } else {
        assert forall|m: int| 0 <= m < cards.len() implies #[trigger] next[m] == current[m] by {
            if cards[m].id == id {
                assert(has_id(cards, id));
            }
        }
        assert(next =~= current);
    }
}

/// One step of a bulk delete: with the cards whose id is among the first `i`
/// of `ids` gone, taking out the next id leaves the cards without the first
/// `i + 1`; and a card goes at this step only where the id is new to the
/// list.
proof fn lemma_delete_next(cards: Seq<CardView>, ids: Seq<Seq<char>>, i: int)
    requires
        0 <= i < ids.len(),
    ensures
        without_id(cards.filter(not_listed(ids.take(i))), ids[i]) == cards.filter(
            not_listed(ids.take(i + 1)),
        ),
        has_id(cards.filter(not_listed(ids.take(i))), ids[i]) == (has_id(cards, ids[i])
            && !ids.take(i).contains(ids[i])),
        any_present(cards, ids.take(i + 1)) == (any_present(cards, ids.take(i)) || has_id(
            cards,
            ids[i],
        )),
{
    let id = ids[i];
    let first = not_listed(ids.take(i));
    let both = not_listed(ids.take(i + 1));
    let current = cards.filter(first);
    assert(ids.take(i + 1) =~= ids.take(i).push(id));
    assert forall|x: Seq<char>| #[trigger]
        ids.take(i + 1).contains(x) == (ids.take(i).contains(x) || x == id) by {
        if ids.take(i).contains(x) {
            let j = choose|j: int| 0 <= j < ids.take(i).len() && ids.take(i)[j] == x;
            assert(ids.take(i + 1)[j] == x);
        }
        if x == id {
            assert(ids.take(i + 1)[i] == x);
        }
    }
    assert forall|c: CardView| #[trigger] both(c) == (first(c) && other_than(id)(c)) by {}
    lemma_filter_twice(cards, first, other_than(id), both);
    if has_id(current, id) {
        let k = choose|k: int| 0 <= k < current.len() && (#[trigger] current[k]).id == id;
        cards.lemma_filter_pred(first, k);
        assert(current.contains(current[k]));
        cards.lemma_filter_contains_rev(first, current[k]);
        let m = choose|m: int| 0 <= m < cards.len() && cards[m] == current[k];
        assert(cards[m].id == id);
    }
    if has_id(cards, id) && !ids.take(i).contains(id) {
        let m = choose|m: int| 0 <= m < cards.len() && (#[trigger] cards[m]).id == id;
        cards.lemma_filter_contains(first, m);
        let k = choose|k: int| 0 <= k < current.len() && current[k] == cards[m];
        assert(current[k].id == id);
    }
    if any_present(cards, ids.take(i)) {
        let j = choose|j: int|
            0 <= j < ids.take(i).len() && has_id(cards, #[trigger] ids.take(i)[j]);
        assert(has_id(cards, ids.take(i + 1)[j]));
    }
    if has_id(cards, id) {
        assert(has_id(cards, ids.take(i + 1)[i]));
    }
    if any_present(cards, ids.take(i + 1)) {
        let j = choose|j: int|
            0 <= j < ids.take(i + 1).len() && has_id(cards, #[trigger] ids.take(i + 1)[j]);
        if j < i {
            assert(has_id(cards, ids.take(i)[j]));
        }
    }
}

/// A bulk delete of ids that no card has leaves every card.
pub proof fn lemma_delete_absent(cards: Seq<CardView>, ids: Seq<Seq<char>>)
    requires
        !any_present(cards, ids),
    ensures
        cards.filter(not_listed(ids)) == cards,
{
    assert forall|k: int| 0 <= k < cards.len() implies not_listed(ids)(#[trigger] cards[k]) by {
        if ids.contains(cards[k].id) {
            let j = choose|j: int| 0 <= j < ids.len() && ids[j] == cards[k].id;
            assert(has_id(cards, ids[j]));
        }
    }
    lemma_filter_keeps_all(cards, not_listed(ids));
}

/// A card is created with an ease factor of 2.5, an interval of 0, no
/// reviews and no correct answers, and with its next review at the instant
/// of its creation. It is due at that instant and at every later one, and
/// stands in the list of due cards of the collection it was put in.
pub proof fn lemma_created_card_is_due(
    cards: Seq<CardView>,
    id: Seq<char>,
    front: Seq<char>,
    back: Seq<char>,
    tag: Option<Seq<char>>,
    now: Timestamp,
    later: Timestamp,
)
    requires
        now.not_after(later),
    ensures
        ({
            let card = new_card(id, front, back, tag, now);
            &&& card.ease_factor == 2500
            &&& card.interval == 0
            &&& card.next_review == card.created_at
            &&& card.review_count == 0
            &&& card.correct_count == 0
            &&& card.well_formed()
            &&& is_due_at(card, later)
            &&& due_cards(with_card(cards, card), later).contains(card)
        }),
{
    let card = new_card(id, front, back, tag, now);
    let after = with_card(cards, card);
    if has_id(cards, id) {
        let k = index_of_id(cards, id);
        assert(after[k] == card);
        after.lemma_filter_contains(due_at(later), k);
    } else {
        assert(after[cards.len() as int] == card);
        after.lemma_filter_contains(due_at(later), cards.len() as int);
    }
}

/// A review answered Again never raises the ease factor of a card that has
/// one of 1.3 or more, whatever the rule in force, and never leaves it under
/// 1.3.
pub proof fn lemma_again_keeps_ease_down(card: CardView, settings: AppSettingsView, now: Timestamp)
    requires
        card.ease_factor >= MIN_EASE_FACTOR,
    ensures
        reviewed(card, ReviewDifficulty::Again, settings, now).ease_factor <= card.ease_factor,
        reviewed(card, ReviewDifficulty::Again, settings, now).ease_factor >= MIN_EASE_FACTOR,
{
    lemma_again_never_raises_ease(card, settings, now);
}

/// A review leaves a well-formed card well formed: the interval is not
/// negative, the ease factor not under 1.3, and the correct answers are no
/// more than the reviews.
pub proof fn lemma_reviewed_is_well_formed(
    card: CardView,
    difficulty: ReviewDifficulty,
    settings: AppSettingsView,
    now: Timestamp,
)
    requires
        card.well_formed(),
    ensures
        reviewed(card, difficulty, settings, now).well_formed(),
{
    lemma_next_review_is_well_formed(card, difficulty, settings, now);
}

/// The view of an optional card.
pub open spec fn card_view_of(card: Option<Card>) -> Option<CardView> {
    match card {
        Some(c) => Some(c@),
        None => None,
    }
}

/// The message of the error for an id that no card has.
pub open spec fn not_found_message() -> Seq<char> {
    "Card not found"@
}

/// What the service holds.
pub struct CardServiceView {
    pub cards: Seq<CardView>,
    pub settings: AppSettingsView,
    /// The cards have changed since their last snapshot was written.
    pub cards_unsaved: bool,
    /// The settings have changed since their last snapshot was written.
    pub settings_unsaved: bool,
}

/// A fresh card id: a random version-4 UUID from `uuid::Uuid::new_v4`,
/// written by `to_string` in its hyphenated form of 36 characters. Which id
/// comes is left open.
#[verifier::external_body]
fn fresh_id() -> (id: String)
    ensures
        id@.len() == 36,
{
    uuid::Uuid::new_v4().to_string()
}

fn not_found() -> (e: String)
    ensures
        e@ == not_found_message(),
{
    String::from_str("Card not found")
}

/// The cards and the settings, with every operation on them.
pub struct CardService {
    cards: CardCollection,
    settings: AppSettings,
    cards_unsaved: bool,
    settings_unsaved: bool,
}

impl View for CardService {
    type V = CardServiceView;

    closed spec fn view(&self) -> CardServiceView {
        CardServiceView {
            cards: self.cards@,
            settings: self.settings@,
            cards_unsaved: self.cards_unsaved,
            settings_unsaved: self.settings_unsaved,
        }
    }
}

impl CardService {
    /// A service over what the store held. `cards` is `None` where the
    /// store held no cards or what it held could not be read: the service then
    /// starts without cards. `settings` is `None` in the same two cases: the
    /// initial settings then take their place. Nothing is owed to the store.
    pub fn new(cards: Option<Vec<Card>>, settings: Option<AppSettings>) -> (r: CardService)
        ensures
            r@.cards == match cards {
                Some(list) => collected(card_views(list@)),
                None => Seq::<CardView>::empty(),
            },
            r@.settings == match settings {
                Some(s) => s@,
                None => AppSettingsView::initial(),
            },
            !r@.cards_unsaved,
            !r@.settings_unsaved,
    {
        let cards = match cards {
            Some(list) => CardCollection::from_cards(list),
            None => CardCollection::new(),
        };
        let settings = match settings {
            Some(s) => s,
            None => AppSettings::default(),
        };
        CardService { cards, settings, cards_unsaved: false, settings_unsaved: false }
    }

    /// Whether the cards have changed since `mark_cards_saved`.
    pub fn cards_need_saving(&self) -> (r: bool)
        ensures
            r == self@.cards_unsaved,
    {
        self.cards_unsaved
    }

    /// Whether the settings have changed since `mark_settings_saved`.
    pub fn settings_need_saving(&self) -> (r: bool)
        ensures
            r == self@.settings_unsaved,
    {
        self.settings_unsaved
    }

    /// Notes that a snapshot of the cards is being written.
    pub fn mark_cards_saved(&mut self)
        ensures
            final(self)@ == (CardServiceView { cards_unsaved: false, ..old(self)@ }),
    {
        self.cards_unsaved = false;
    }

    /// Notes that a snapshot of the settings is being written.
    pub fn mark_settings_saved(&mut self)
        ensures
            final(self)@ == (CardServiceView { settings_unsaved: false, ..old(self)@ }),
    {
        self.settings_unsaved = false;
    }

    /// Creates the card of `request` under the id `id` at `now`, and hands
    /// back a copy. A card that had the id gives way to the new one.
    pub fn create_card_with(
        &mut self,
        id: String,
        now: Timestamp,
        request: CreateCardRequest,
    ) -> (card: Card)
        ensures
            card@ == new_card(id@, request.front@, request.back@, text_of(request.tag), now),
            final(self)@ == (CardServiceView {
                cards: with_card(old(self)@.cards, card@),
                cards_unsaved: true,
                ..old(self)@
            }),
    {
        let card = Card {
            id,
            front: request.front,
            back: request.back,
            tag: request.tag,
            created_at: now,
            last_reviewed: None,
            next_review: now,
            interval: 0,
            ease_factor: INITIAL_EASE_FACTOR,
            review_count: 0,
            correct_count: 0,
            leitner_box: 0,
            exponential_factor: DECIMAL_ONE,
        };
        let copy = card.clone();
        self.cards.insert(card);
        self.cards_unsaved = true;
        copy
    }

    /// Creates the card of `request` under a fresh id, at the instant the
    /// clock shows.
    pub fn create_card(&mut self, request: CreateCardRequest) -> (r: Result<Card, String>)
        ensures
            r is Ok,
            r.unwrap()@ == new_card(
                r.unwrap()@.id,
                request.front@,
                request.back@,
                text_of(request.tag),
                r.unwrap()@.created_at,
            ),
            r.unwrap()@.id.len() == 36,
            final(self)@ == (CardServiceView {
                cards: with_card(old(self)@.cards, r.unwrap()@),
                cards_unsaved: true,
                ..old(self)@
            }),
    {
        let id = fresh_id();
        let t = now();
        Ok(self.create_card_with(id, t, request))
    }

    /// Copies of all cards, in the order of the collection. No two of them
    /// have the same id.
    pub fn get_cards(&self) -> (r: Result<Vec<Card>, String>)
        ensures
            r is Ok,
            card_views(r.unwrap()@) == self@.cards,
            distinct_ids(self@.cards),
    {
        let list = self.cards.values();
        let mut copies: Vec<Card> = Vec::new();
        let mut i: usize = 0;
        while i < list.len()
            invariant
                i <= list.len(),
                card_views(copies@) == card_views(list@).take(i as int),
            decreases list.len() - i,
        {
            let ghost before = card_views(copies@);
            copies.push(list[i].clone());
            assert(card_views(copies@) =~= before.push(list@[i as int]@));
            assert(card_views(list@).take(i + 1) =~= card_views(list@).take(i as int).push(
                list@[i as int]@,
            ));
            i += 1;
        }
        assert(card_views(list@).take(list.len() as int) =~= card_views(list@));
        Ok(copies)
    }

    /// A copy of the card with the id `id`; `None` where no card has it.
    pub fn get_card(&self, id: String) -> (r: Result<Option<Card>, String>)
        ensures
            r is Ok,
            card_view_of(r.unwrap()) == find_card(self@.cards, id@),
    {
        match self.cards.get(&id) {
            Some(card) => Ok(Some(card.clone())),
            None => Ok(None),
        }
    }

    /// Replaces front, back and tag of the card with the id `id` and hands
    /// back a copy of the card. Where no card has the id, nothing changes and
    /// the error says so.
    pub fn update_card(&mut self, id: String, request: UpdateCardRequest) -> (r: Result<Card, String>)
        ensures
            match r {
                Ok(card) => {
                    &&& find_card(old(self)@.cards, id@) is Some
                    &&& card@ == edited(
                        find_card(old(self)@.cards, id@).unwrap(),
                        request.front@,
                        request.back@,
                        text_of(request.tag),
                    )
                    &&& final(self)@ == (CardServiceView {
                        cards: with_card(old(self)@.cards, card@),
                        cards_unsaved: true,
                        ..old(self)@
                    })
                },
                Err(e) => {
                    &&& find_card(old(self)@.cards, id@) is None
                    &&& e@ == not_found_message()
                    &&& final(self)@ == old(self)@
                },
            },
    {
        let found = match self.cards.get(&id) {
            Some(card) => Some(card.clone()),
            None => None,
        };
        match found {
            Some(card) => {
                let mut card = card;
                card.front = request.front;
                card.back = request.back;
                card.tag = request.tag;
                let copy = card.clone();
                self.cards.insert(card);
                self.cards_unsaved = true;
                Ok(copy)
            },
            None => Err(not_found()),
        }
    }

    /// Removes the card with the id `id`. Where no card has the id, nothing
    /// changes and the error says so.
    pub fn delete_card(&mut self, id: String) -> (r: Result<(), String>)
        ensures
            match r {
                Ok(_) => {
                    &&& has_id(old(self)@.cards, id@)
                    &&& final(self)@ == (CardServiceView {
                        cards: without_id(old(self)@.cards, id@),
                        cards_unsaved: true,
                        ..old(self)@
                    })
                },
                Err(e) => {
                    &&& !has_id(old(self)@.cards, id@)
                    &&& e@ == not_found_message()
                    &&& final(self)@ == old(self)@
                },
            },
    {
        match self.cards.remove(&id) {
            Some(_) => {
                self.cards_unsaved = true;
                Ok(())
            },
            None => Err(not_found()),
        }
    }

    /// Copies of the cards that are due at `now`, in the order of the
    /// collection.
    pub fn get_due_cards_at(&self, now: Timestamp) -> (due: Vec<Card>)
        ensures
            card_views(due@) == due_cards(self@.cards, now),
    {
        SpacedRepetition::get_due_cards_at(&self.cards, now)
    }

    /// Copies of the cards that are due at the instant the clock shows.
    pub fn get_due_cards(&self) -> (r: Result<Vec<Card>, String>)
        ensures
            r is Ok,
            exists|t: Timestamp|
                card_views(r.unwrap()@) == #[trigger] due_cards(self@.cards, t),
    {
        let t = now();
        let due = self.get_due_cards_at(t);
        assert(card_views(due@) == due_cards(self@.cards, t));
        Ok(due)
    }

    /// Reviews the card with the id `id` at `now`, under the rule that the
    /// settings name, and hands back a copy of the card as it then is. Where
    /// no card has the id, nothing changes and the error says so.
    pub fn review_card_at(
        &mut self,
        id: String,
        difficulty: ReviewDifficulty,
        now: Timestamp,
    ) -> (r: Result<Card, String>)
        ensures
            match r {
                Ok(card) => {
                    &&& find_card(old(self)@.cards, id@) is Some
                    &&& card@ == reviewed(
                        find_card(old(self)@.cards, id@).unwrap(),
                        difficulty,
                        old(self)@.settings,
                        now,
                    )
                    &&& final(self)@ == (CardServiceView {
                        cards: with_card(old(self)@.cards, card@),
                        cards_unsaved: true,
                        ..old(self)@
                    })
                },
                Err(e) => {
                    &&& find_card(old(self)@.cards, id@) is None
                    &&& e@ == not_found_message()
                    &&& final(self)@ == old(self)@
                },
            },
    {
        let found = match self.cards.get(&id) {
            Some(card) => Some(card.clone()),
            None => None,
        };
        match found {
            Some(card) => {
                let mut card = card;
                let (interval, ease_factor, next_review, leitner_box, exponential_factor) =
                    SpacedRepetition::calculate_next_review_at(
                    &card,
                    &difficulty,
                    &self.settings,
                    now,
                );
                card.last_reviewed = Some(now);
                card.next_review = next_review;
                card.interval = interval;
                card.ease_factor = ease_factor;
                card.leitner_box = leitner_box;
                card.exponential_factor = exponential_factor;
                card.review_count = card.review_count.saturating_add(1);
                if difficulty.counts_as_correct() {
                    card.correct_count = card.correct_count.saturating_add(1);
                }
                let copy = card.clone();
                self.cards.insert(card);
                self.cards_unsaved = true;
                Ok(copy)
            },
            None => Err(not_found()),
        }
    }

    /// Reviews the card with the id `id` at the instant the clock shows.
    pub fn review_card(&mut self, id: String, difficulty: ReviewDifficulty) -> (r: Result<Card, String>)
        ensures
            match r {
                Ok(card) => {
                    &&& find_card(old(self)@.cards, id@) is Some
                    &&& exists|t: Timestamp|
                        card@ == #[trigger] reviewed(
                            find_card(old(self)@.cards, id@).unwrap(),
                            difficulty,
                            old(self)@.settings,
                            t,
                        )
                    &&& final(self)@ == (CardServiceView {
                        cards: with_card(old(self)@.cards, card@),
                        cards_unsaved: true,
                        ..old(self)@
                    })
                },
                Err(e) => {
                    &&& find_card(old(self)@.cards, id@) is None
                    &&& e@ == not_found_message()
                    &&& final(self)@ == old(self)@
                },
            },
    {
        let t = now();
        let r = self.review_card_at(id, difficulty, t);
        proof {
            if r is Ok {
                assert(r.unwrap()@ == reviewed(
                    find_card(old(self)@.cards, id@).unwrap(),
                    difficulty,
                    old(self)@.settings,
                    t,
                ));
            }
        }
        r
    }

    /// The counts over all cards at `now`.
    pub fn get_review_stats_at(&self, now: Timestamp) -> (stats: ReviewStats)
        ensures
            stats_match(stats, self@.cards, now),
    {
        SpacedRepetition::calculate_stats_at(&self.cards, now)
    }

    /// The counts over all cards at the instant the clock shows.
    pub fn get_review_stats(&self) -> (r: Result<ReviewStats, String>)
        ensures
            r is Ok,
            exists|t: Timestamp| #[trigger] stats_match(r.unwrap(), self@.cards, t),
    {
        let t = now();
        let stats = self.get_review_stats_at(t);
        let r: Result<ReviewStats, String> = Ok(stats);
        assert(stats_match(r.unwrap(), self@.cards, t));
        r
    }

    /// A copy of the settings.
    pub fn get_settings(&self) -> (r: Result<AppSettings, String>)
        ensures
            r is Ok,
            r.unwrap()@ == self@.settings,
    {
        Ok(self.settings.clone())
    }

    /// Puts `new_settings` in the place of the settings, whole, and hands
    /// them back.
    pub fn update_settings(&mut self, new_settings: AppSettings) -> (r: Result<AppSettings, String>)
        ensures
            r is Ok,
            r.unwrap()@ == new_settings@,
            final(self)@ == (CardServiceView {
                settings: new_settings@,
                settings_unsaved: true,
                ..old(self)@
            }),
    {
        self.settings = new_settings.clone();
        self.settings_unsaved = true;
        Ok(new_settings)
    }
    /// Copies of the cards that pass the search, in the order of the
    /// collection. A text is looked for in front and back without regard to
    /// case; a tag must be the card's tag exactly; a search with both asks
    /// for both.
    pub fn search_cards(&self, request: SearchRequest) -> (r: Result<Vec<Card>, String>)
        ensures
            r is Ok,
            card_views(r.unwrap()@) == self@.cards.filter(
                search_hit(text_of(request.query), text_of(request.tag)),
            ),
    {
        let list = self.cards.values();
        let ghost all = self@.cards;
        let ghost hit = search_hit(text_of(request.query), text_of(request.tag));
        let query: Option<String> = match &request.query {
            Some(q) => Some(lowercase(q)),
            None => None,
        };
        let mut found: Vec<Card> = Vec::new();
        let mut i: usize = 0;
        proof {
            lemma_filter_empty(hit);
            assert(all.take(0) =~= Seq::<CardView>::empty());
            assert(card_views(found@) =~= Seq::<CardView>::empty());
        }
        while i < list.len()
            invariant
                i <= list.len(),
                all == card_views(list@),
                hit == search_hit(text_of(request.query), text_of(request.tag)),
                match query {
                    Some(q) => request.query is Some && q@ == lowercase_of(
                        request.query.unwrap()@,
                    ),
                    None => request.query is None,
                },
                card_views(found@) == all.take(i as int).filter(hit),
            decreases list.len() - i,
        {
            proof {
                lemma_filter_next(all, hit, i as int);
            }
            let card = &list[i];
            let by_text = match &query {
                Some(q) => {
                    let front = lowercase(&card.front);
                    let back = lowercase(&card.back);
                    found_in_either(&front, &back, q)
                },
                None => true,
            };
            let by_tag = match &request.tag {
                Some(wanted) => match &card.tag {
                    Some(tag) => *tag == *wanted,
                    None => false,
                },
                None => true,
            };
            assert(by_text == query_matches(card@, text_of(request.query)));
            assert(by_tag == tag_matches(card@, text_of(request.tag)));
            if by_text && by_tag {
                let ghost before = card_views(found@);
                found.push(card.clone());
                assert(card_views(found@) =~= before.push(all[i as int]));
            }
            i += 1;
        }
        assert(all.take(list.len() as int) =~= all);
        Ok(found)
    }

    /// The tags in use: every tag that some card has, once, in ascending
    /// order.
    pub fn get_tags(&self) -> (r: Result<Vec<String>, String>)
        ensures
            r is Ok,
            tags_match(texts_of(r.unwrap()@), self@.cards),
    {
        Ok(collect_tags(self.cards.values()))
    }

    /// The counts per tag at `now`, the cards without a tag under
    /// "Uncategorized", in ascending order of the names.
    pub fn get_tag_stats_at(&self, now: Timestamp) -> (stats: Vec<TagStats>)
        ensures
            tag_stats_match(tag_stats_views(stats@), self@.cards, now),
    {
        collect_tag_stats(self.cards.values(), now)
    }

    /// The counts per tag at the instant the clock shows.
    pub fn get_tag_stats(&self) -> (r: Result<Vec<TagStats>, String>)
        ensures
            r is Ok,
            exists|t: Timestamp| #[trigger]
                tag_stats_match(tag_stats_views(r.unwrap()@), self@.cards, t),
    {
        let t = now();
        let r: Result<Vec<TagStats>, String> = Ok(self.get_tag_stats_at(t));
        assert(tag_stats_match(tag_stats_views(r.unwrap()@), self@.cards, t));
        r
    }

    /// Gives every card whose id is in the request the tag of the request,
    /// and hands back copies of the cards it changed, in the order of the
    /// ids. An id that no card has is passed over. A snapshot is owed only
    /// where a card was changed.
    pub fn bulk_update_tag(&mut self, request: BulkUpdateRequest) -> (r: Result<Vec<Card>, String>)
        ensures
            r is Ok,
            card_views(r.unwrap()@) == retagged_list(
                old(self)@.cards,
                texts_of(request.card_ids@),
                text_of(request.tag),
            ),
            final(self)@ == (CardServiceView {
                cards: old(self)@.cards.map_values(
                    retag_listed(texts_of(request.card_ids@), text_of(request.tag)),
                ),
                cards_unsaved: old(self)@.cards_unsaved || r.unwrap()@.len() > 0,
                ..old(self)@
            }),
    {
        let ghost start = self@.cards;
        let ghost ids = texts_of(request.card_ids@);
        let ghost tag = text_of(request.tag);
        let mut updated: Vec<Card> = Vec::new();
        let mut i: usize = 0;
        self.cards.ids_are_distinct();
        proof {
            assert(ids.take(0) =~= Seq::<Seq<char>>::empty());
            lemma_filter_empty(present_in(start));
            assert(start.map_values(retag_listed(ids.take(0), tag)) =~= start);
            assert(retagged_list(start, ids.take(0), tag) =~= Seq::<CardView>::empty());
            assert(card_views(updated@) =~= Seq::<CardView>::empty());
        }
        while i < request.card_ids.len()
            invariant
                i <= request.card_ids.len(),
                ids == texts_of(request.card_ids@),
                tag == text_of(request.tag),
                distinct_ids(start),
                self@.cards == start.map_values(retag_listed(ids.take(i as int), tag)),
                card_views(updated@) == retagged_list(start, ids.take(i as int), tag),
                self@.settings == old(self)@.settings,
                self@.settings_unsaved == old(self)@.settings_unsaved,
                self@.cards_unsaved == old(self)@.cards_unsaved,
            decreases request.card_ids.len() - i,
        {
            proof {
                lemma_retag_next(start, ids, tag, i as int);
            }
            let found = match self.cards.get(&request.card_ids[i]) {
                Some(card) => Some(card.clone()),
                None => None,
            };
            match found {
                Some(card) => {
                    let mut card = card;
                    card.tag = clone_text(&request.tag);
                    let ghost before = card_views(updated@);
                    updated.push(card.clone());
                    assert(card_views(updated@) =~= before.push(card@));
                    self.cards.insert(card);
                },
                None => {},
            }
            i += 1;
        }
        assert(ids.take(request.card_ids.len() as int) =~= ids);
        if updated.len() > 0 {
            self.cards_unsaved = true;
        }
        Ok(updated)
    }

    /// Removes every card whose id is in `card_ids`. An id that no card has
    /// is passed over, however often it stands in the list. A snapshot is
    /// owed only where a card was removed: where none of the ids is a card's,
    /// nothing changes at all.
    pub fn delete_multiple_cards(&mut self, card_ids: Vec<String>) -> (r: Result<(), String>)
        ensures
            r is Ok,
            final(self)@ == (CardServiceView {
                cards: old(self)@.cards.filter(not_listed(texts_of(card_ids@))),
                cards_unsaved: old(self)@.cards_unsaved || any_present(
                    old(self)@.cards,
                    texts_of(card_ids@),
                ),
                ..old(self)@
            }),
            !any_present(old(self)@.cards, texts_of(card_ids@)) ==> final(self)@ == old(self)@,
    {
        let ghost start = self@.cards;
        let ghost ids = texts_of(card_ids@);
        let mut deleted: bool = false;
        let mut i: usize = 0;
        proof {
            assert(ids.take(0) =~= Seq::<Seq<char>>::empty());
            lemma_filter_keeps_all(start, not_listed(ids.take(0)));
        }
        while i < card_ids.len()
            invariant
                i <= card_ids.len(),
                ids == texts_of(card_ids@),
                self@.cards == start.filter(not_listed(ids.take(i as int))),
                deleted == any_present(start, ids.take(i as int)),
                self@.settings == old(self)@.settings,
                self@.settings_unsaved == old(self)@.settings_unsaved,
                self@.cards_unsaved == old(self)@.cards_unsaved,
            decreases card_ids.len() - i,
        {
            proof {
                lemma_delete_next(start, ids, i as int);
            }
            if self.cards.remove(&card_ids[i]).is_some() {
                deleted = true;
            }
            i += 1;
        }
        assert(ids.take(card_ids.len() as int) =~= ids);
        if deleted {
            self.cards_unsaved = true;
        }
        proof {
            if !deleted {
                lemma_delete_absent(start, ids);
            }
        }
        Ok(())
    }
}

} // verus!
