//! The card collection: cards in the order in which they were added, no two
//! with the same id.

use vstd::prelude::*;
use crate::models::{card_views, Card, CardView};
use crate::sequences::lemma_filter_keeps_all;

verus! {

/// Some card of `cards` has the id `id`.
pub open spec fn has_id(cards: Seq<CardView>, id: Seq<char>) -> bool {
    exists|k: int| 0 <= k < cards.len() && (#[trigger] cards[k]).id == id
}

/// No two cards of `cards` have the same id.
pub open spec fn distinct_ids(cards: Seq<CardView>) -> bool {
    forall|i: int, j: int|
        0 <= i < j < cards.len() ==> (#[trigger] cards[i]).id != (#[trigger] cards[j]).id
}

/// Where the card with the id `id` stands in `cards`, if there is one.
pub open spec fn index_of_id(cards: Seq<CardView>, id: Seq<char>) -> int {
    choose|k: int| 0 <= k < cards.len() && (#[trigger] cards[k]).id == id
}

/// The card with the id `id`, if there is one.
pub open spec fn find_card(cards: Seq<CardView>, id: Seq<char>) -> Option<CardView> {
    if has_id(cards, id) {
        Some(cards[index_of_id(cards, id)])
    } else {
        None
    }
}

/// The test that a card has another id than `id`.
pub open spec fn other_than(id: Seq<char>) -> spec_fn(CardView) -> bool {
    |c: CardView| c.id != id
}

/// `cards` without the card that has the id `id`.
pub open spec fn without_id(cards: Seq<CardView>, id: Seq<char>) -> Seq<CardView> {
    cards.filter(other_than(id))
}

/// `cards` with `card` in the place of the card that has its id, or at the
/// end where no card has it.
pub open spec fn with_card(cards: Seq<CardView>, card: CardView) -> Seq<CardView> {
    if has_id(cards, card.id) {
        cards.update(index_of_id(cards, card.id), card)
    } else {
        cards.push(card)
    }
}

/// The collection that comes of putting `cards` in, one after the other: of
/// two cards with one id the later one stays, in the place of the earlier.
pub open spec fn collected(cards: Seq<CardView>) -> Seq<CardView>
    decreases cards.len(),
{
    if cards.len() == 0 {
        Seq::empty()
    } else {
        with_card(collected(cards.drop_last()), cards.last())
    }
}

/// Among distinct ids, the place of an id is the one place where it stands.
pub proof fn lemma_index_of_id(cards: Seq<CardView>, k: int)
    requires
        distinct_ids(cards),
        0 <= k < cards.len(),
    ensures
        has_id(cards, cards[k].id),
        index_of_id(cards, cards[k].id) == k,
        find_card(cards, cards[k].id) == Some(cards[k]),
{
    let id = cards[k].id;
    let found = index_of_id(cards, id);
    assert(0 <= found < cards.len() && cards[found].id == id);
    if found < k {
        assert(cards[found].id != cards[k].id);
    }
    if k < found {
        assert(cards[k].id != cards[found].id);
    }
}

/// Among distinct ids, leaving out an id takes out the one card that has it.
pub proof fn lemma_without_id_removes(cards: Seq<CardView>, k: int)
    requires
        distinct_ids(cards),
        0 <= k < cards.len(),
    ensures
        without_id(cards, cards[k].id) == cards.remove(k),
    decreases cards.len(),
{
    reveal(Seq::filter);
    let id = cards[k].id;
    let keep = other_than(id);
    let front = cards.drop_last();
    if k == cards.len() - 1 {
        assert forall|i: int| 0 <= i < front.len() implies keep(#[trigger] front[i]) by {
            assert(cards[i].id != cards[k].id);
        }
        lemma_filter_keeps_all(front, keep);
        assert(cards.remove(k) =~= front);
    } else {
        assert(front[k] == cards[k]);
        lemma_without_id_removes(front, k);
        assert(cards[k].id != cards.last().id);
        assert(front.remove(k).push(cards.last()) =~= cards.remove(k));
    }
}

/// Cards with distinct ids, put in one after the other, give the same cards
/// in the same order. So the cards that a collection hands out, collected
/// again, are the collection it was: nothing is lost or moved on the way
/// through a snapshot.
pub proof fn lemma_collected_distinct(cards: Seq<CardView>)
    requires
        distinct_ids(cards),
    ensures
        collected(cards) == cards,
    decreases cards.len(),
{
    if cards.len() > 0 {
        let front = cards.drop_last();
        assert forall|i: int, j: int| 0 <= i < j < front.len() implies (#[trigger] front[i]).id
            != (#[trigger] front[j]).id by {
            assert(front[i] == cards[i] && front[j] == cards[j]);
        }
        lemma_collected_distinct(front);
        if has_id(front, cards.last().id) {
            let k = choose|k: int|
                0 <= k < front.len() && (#[trigger] front[k]).id == cards.last().id;
            assert(cards[k].id != cards[cards.len() - 1].id);
        }
        assert(front.push(cards.last()) =~= cards);
    } else {
        assert(cards =~= Seq::<CardView>::empty());
    }
}

/// Leaving out an id that no card has changes nothing.
pub proof fn lemma_without_absent_id(cards: Seq<CardView>, id: Seq<char>)
    requires
        !has_id(cards, id),
    ensures
        without_id(cards, id) == cards,
{
    let keep = other_than(id);
    assert forall|i: int| 0 <= i < cards.len() implies keep(#[trigger] cards[i]) by {
        if cards[i].id == id {
            assert(has_id(cards, id));
        }
    }
    lemma_filter_keeps_all(cards, keep);
}

/// Cards in the order in which they were added, no two with the same id.
pub struct CardCollection {
    cards: Vec<Card>,
}

impl View for CardCollection {
    type V = Seq<CardView>;

    closed spec fn view(&self) -> Seq<CardView> {
        card_views(self.cards@)
    }
}

impl CardCollection {
    #[verifier::type_invariant]
    spec fn ids_differ(&self) -> bool {
        distinct_ids(card_views(self.cards@))
    }

    /// A collection without cards.
    pub fn new() -> (r: CardCollection)
        ensures
            r@ == Seq::<CardView>::empty(),
    {
        let r = CardCollection { cards: Vec::new() };
        assert(r@ =~= Seq::<CardView>::empty());
        r
    }

    /// The collection of `cards`, put in one after the other.
    pub fn from_cards(cards: Vec<Card>) -> (r: CardCollection)
        ensures
            r@ == collected(card_views(cards@)),
    {
        let ghost all = card_views(cards@);
        let mut r = CardCollection::new();
        for card in it: cards
            invariant
                all == card_views(it.seq()),
                r@ == collected(all.take(it.index() as int)),
        {
            proof {
                let i = it.index() as int;
                assert(all.take(i + 1).drop_last() =~= all.take(i));
                assert(all.take(i + 1).last() == card@);
            }
            r.insert(card);
        }
        assert(all.take(all.len() as int) =~= all);
        r
    }

    /// States what every collection keeps: no two cards share an id.
    pub fn ids_are_distinct(&self)
        ensures
            distinct_ids(self@),
    {
        proof {
            use_type_invariant(self);
        }
    }

    /// The number of cards.
    pub fn len(&self) -> (n: usize)
        ensures
            n == self@.len(),
    {
        self.cards.len()
    }

    pub fn is_empty(&self) -> (r: bool)
        ensures
            r == (self@.len() == 0),
    {
        self.cards.len() == 0
    }

    /// The cards, in the order in which they were added.
    pub fn values(&self) -> (r: &Vec<Card>)
        ensures
            card_views(r@) == self@,
            distinct_ids(self@),
    {
        proof {
            use_type_invariant(self);
        }
        &self.cards
    }

    /// Where the card with the id `id` stands.
    pub fn position(&self, id: &String) -> (r: Option<usize>)
        ensures
            match r {
                Some(k) => k < self@.len() && self@[k as int].id == id@ && has_id(self@, id@)
                    && index_of_id(self@, id@) == k,
                None => !has_id(self@, id@),
            },
    {
        proof {
            use_type_invariant(self);
        }
        let mut i: usize = 0;
        while i < self.cards.len()
            invariant
                i <= self.cards.len(),
                distinct_ids(self@),
                forall|k: int| 0 <= k < i ==> (#[trigger] self@[k]).id != id@,
            decreases self.cards.len() - i,
        {
            if self.cards[i].id == *id {
                proof {
                    lemma_index_of_id(self@, i as int);
                }
                return Some(i);
            }
            i += 1;
        }
        None
    }

    /// Whether some card has the id `id`.
    pub fn contains_key(&self, id: &String) -> (r: bool)
        ensures
            r == has_id(self@, id@),
    {
        self.position(id).is_some()
    }

    /// The card with the id `id`.
    pub fn get(&self, id: &String) -> (r: Option<&Card>)
        ensures
            match r {
                Some(card) => find_card(self@, id@) == Some(card@),
                None => find_card(self@, id@).is_none(),
            },
    {
        match self.position(id) {
            Some(k) => Some(&self.cards[k]),
            None => None,
        }
    }

    /// Puts `card` into the collection: in the place of the card that has its
    /// id, which is handed back, or at the end.
    pub fn insert(&mut self, card: Card) -> (r: Option<Card>)
        ensures
            final(self)@ == with_card(old(self)@, card@),
            match r {
                Some(previous) => find_card(old(self)@, card@.id) == Some(previous@),
                None => find_card(old(self)@, card@.id).is_none(),
            },
    {
        let found = self.position(&card.id);
        let mut taken = CardCollection::new();
        core::mem::swap(self, &mut taken);
        proof {
            use_type_invariant(&taken);
        }
        let CardCollection { cards } = taken;
        let mut cards = cards;
        let ghost before = card_views(cards@);
        let r = match found {
            Some(k) => {
                let mut card = card;
                core::mem::swap(&mut cards[k], &mut card);
                assert(card_views(cards@) =~= before.update(k as int, cards@[k as int]@));
                Some(card)
            },
            None => {
                cards.push(card);
                assert(card_views(cards@) =~= before.push(card@));
                assert forall|i: int, j: int| 0 <= i < j < cards@.len() implies (
                #[trigger] card_views(cards@)[i]).id != (#[trigger] card_views(cards@)[j]).id by {
                    if j == before.len() {
                        assert(before[i].id != card@.id);
                    }
                }
                None
            },
        };
        *self = CardCollection { cards };
        r
    }

    /// Takes the card with the id `id` out of the collection and hands it
    /// back.
    pub fn remove(&mut self, id: &String) -> (r: Option<Card>)
        ensures
            final(self)@ == without_id(old(self)@, id@),
            match r {
                Some(card) => find_card(old(self)@, id@) == Some(card@),
                None => find_card(old(self)@, id@).is_none() && final(self)@ == old(self)@,
            },
    {
        match self.position(id) {
            Some(k) => {
                let mut taken = CardCollection::new();
                core::mem::swap(self, &mut taken);
                proof {
                    use_type_invariant(&taken);
                }
                let CardCollection { cards } = taken;
                let mut cards = cards;
                let ghost before = card_views(cards@);
                let card = cards.remove(k);
                proof {
                    lemma_without_id_removes(before, k as int);
                    assert(card_views(cards@) =~= before.remove(k as int));
                }
                *self = CardCollection { cards };
                Some(card)
            },
            None => {
                proof {
                    lemma_without_absent_id(self@, id@);
                }
                None
            },
        }
    }
}

} // verus!
