//! Tags: the sorted list of the tags in use, and the counts per tag.

use vstd::prelude::*;
use vstd::string::*;
use crate::card_time::Timestamp;
use crate::models::{card_views, tag_stats_views, Card, CardView, TagStats, TagStatsView};
use crate::sequences::{lemma_filter_empty, lemma_filter_next, lemma_filter_none};
use crate::spaced_repetition::{is_due_at, SpacedRepetition};
use crate::text::{
    comes_before, lemma_precedes_asymmetric, lemma_precedes_total, lemma_precedes_transitive,
    text_precedes, texts_of,
};

verus! {

/// Each name stands before every later one. Such a sequence holds no name
/// twice.
pub open spec fn strictly_sorted(names: Seq<Seq<char>>) -> bool {
    forall|i: int, j: int|
        0 <= i < j < names.len() ==> text_precedes(#[trigger] names[i], #[trigger] names[j])
}

/// Some card of `cards` has the tag `tag`.
pub open spec fn has_tag(cards: Seq<CardView>, tag: Seq<char>) -> bool {
    exists|k: int| 0 <= k < cards.len() && (#[trigger] cards[k]).tag == Some(tag)
}

/// `tags` is the list of the tags of `cards`: every tag that some card has,
/// once, in ascending order. Cards without a tag add nothing.
pub open spec fn tags_match(tags: Seq<Seq<char>>, cards: Seq<CardView>) -> bool {
    &&& strictly_sorted(tags)
    &&& forall|t: Seq<char>| #[trigger] tags.contains(t) <==> has_tag(cards, t)
}

/// Where `name` stands, or would stand, in sorted `names`: after every name
/// that comes before it.
fn sorted_position(names: &Vec<String>, name: &String) -> (p: usize)
    requires
        strictly_sorted(texts_of(names@)),
    ensures
        p <= names@.len(),
        forall|i: int| 0 <= i < p ==> text_precedes(#[trigger] texts_of(names@)[i], name@),
        forall|i: int|
            p <= i < names@.len() ==> (#[trigger] texts_of(names@)[i] == name@ && i == p)
                || text_precedes(name@, texts_of(names@)[i]),
{
    let ghost texts = texts_of(names@);
    let mut p: usize = 0;
    while p < names.len() && comes_before(&names[p], name)
        invariant
            p <= names@.len(),
            texts == texts_of(names@),
            forall|i: int| 0 <= i < p ==> text_precedes(#[trigger] texts[i], name@),
        decreases names@.len() - p,
    {
        p += 1;
    }
    proof {
        if p < names@.len() {
            lemma_precedes_total(texts[p as int], name@);
            assert forall|i: int| p <= i < names@.len() implies (#[trigger] texts[i] == name@ && i
                == p) || text_precedes(name@, texts[i]) by {
                if i > p {
                    if texts[p as int] == name@ {
                        assert(text_precedes(texts[p as int], texts[i]));
                    } else {
                        lemma_precedes_transitive(name@, texts[p as int], texts[i]);
                    }
                }
            }
        }
    }
    p
}

/// Puts `name` into sorted `names`, unless it stands there already.
fn insert_sorted(names: &mut Vec<String>, name: String)
    requires
        strictly_sorted(texts_of(old(names)@)),
    ensures
        strictly_sorted(texts_of(final(names)@)),
        forall|t: Seq<char>| #[trigger]
            texts_of(final(names)@).contains(t) <==> (texts_of(old(names)@).contains(t) || t
                == name@),
{
    let ghost before = texts_of(names@);
    let p = sorted_position(names, &name);
    if p < names.len() && names[p] == name {
        assert(before[p as int] == name@);
        assert forall|t: Seq<char>| #[trigger]
            before.contains(t) <==> (before.contains(t) || t == name@) by {}
    } else {
        names.insert(p, name);
        let ghost after = texts_of(names@);
        assert(after =~= before.insert(p as int, name@));
        assert forall|i: int, j: int| 0 <= i < j < after.len() implies text_precedes(
            #[trigger] after[i],
            #[trigger] after[j],
        ) by {
            if j < p {
                assert(after[i] == before[i] && after[j] == before[j]);
            } else if j == p {
                assert(after[i] == before[i]);
            } else if i < p {
                assert(after[i] == before[i] && after[j] == before[j - 1]);
            } else if i == p {
                assert(after[j] == before[j - 1]);
            } else {
                assert(after[i] == before[i - 1] && after[j] == before[j - 1]);
            }
        }
        assert forall|t: Seq<char>| #[trigger]
            after.contains(t) <==> (before.contains(t) || t == name@) by {
            if after.contains(t) {
                let i = choose|i: int| 0 <= i < after.len() && after[i] == t;
                if i < p {
                    assert(before[i] == t);
                } else if i > p {
                    assert(before[i - 1] == t);
                }
            }
            if before.contains(t) {
                let i = choose|i: int| 0 <= i < before.len() && before[i] == t;
                if i < p {
                    assert(after[i] == t);
                } else {
                    assert(after[i + 1] == t);
                }
            }
            if t == name@ {
                assert(after[p as int] == t);
            }
        }
    }
}

/// The tags of `cards`: every tag that some card has, once, in ascending
/// order.
pub fn collect_tags(cards: &Vec<Card>) -> (tags: Vec<String>)
    ensures
        tags_match(texts_of(tags@), card_views(cards@)),
{
    let ghost all = card_views(cards@);
    let mut tags: Vec<String> = Vec::new();
    let mut i: usize = 0;
    while i < cards.len()
        invariant
            i <= cards.len(),
            all == card_views(cards@),
            strictly_sorted(texts_of(tags@)),
            forall|t: Seq<char>| #[trigger]
                texts_of(tags@).contains(t) <==> has_tag(all.take(i as int), t),
        decreases cards.len() - i,
    {
        let ghost before = texts_of(tags@);
        let ghost prefix = all.take(i as int);
        let ghost next = all.take(i + 1);
        match &cards[i].tag {
            Some(tag) => {
                insert_sorted(&mut tags, tag.clone());
            },
            None => {},
        }
        proof {
            let card = all[i as int];
            assert(next =~= prefix.push(card));
            assert forall|t: Seq<char>| #[trigger]
                texts_of(tags@).contains(t) <==> has_tag(next, t) by {
                if has_tag(prefix, t) {
                    let k = choose|k: int| 0 <= k < prefix.len() && prefix[k].tag == Some(t);
                    assert(next[k].tag == Some(t));
                }
                if card.tag == Some(t) {
                    assert(next[i as int].tag == Some(t));
                }
                if has_tag(next, t) {
                    let k = choose|k: int| 0 <= k < next.len() && next[k].tag == Some(t);
                    if k < i {
                        assert(prefix[k].tag == Some(t));
                    }
                }
            }
        }
        i += 1;
    }
    assert(all.take(cards.len() as int) =~= all);
    tags
}

/// The name of the group of cards without a tag.
pub open spec fn uncategorized() -> Seq<char> {
    "Uncategorized"@
}

/// The group a card is counted in: its tag, or "Uncategorized" where it has
/// none.
pub open spec fn label_of(card: CardView) -> Seq<char> {
    match card.tag {
        Some(t) => t,
        None => uncategorized(),
    }
}

/// The test that a card belongs to the group `name`.
pub open spec fn labelled(name: Seq<char>) -> spec_fn(CardView) -> bool {
    |c: CardView| label_of(c) == name
}

/// The test that a card belongs to the group `name` and is due at `now`.
pub open spec fn labelled_due(name: Seq<char>, now: Timestamp) -> spec_fn(CardView) -> bool {
    |c: CardView| label_of(c) == name && is_due_at(c, now)
}

/// The test that a card belongs to the group `name` and was never reviewed.
pub open spec fn labelled_new(name: Seq<char>) -> spec_fn(CardView) -> bool {
    |c: CardView| label_of(c) == name && c.review_count == 0
}

/// The test that a card belongs to the group `name` and was reviewed five
/// times or more.
pub open spec fn labelled_mature(name: Seq<char>) -> spec_fn(CardView) -> bool {
    |c: CardView| label_of(c) == name && c.review_count >= 5
}

/// The counts of the group `name` over `cards` at `now`.
pub open spec fn tag_stats_of(cards: Seq<CardView>, name: Seq<char>, now: Timestamp) -> TagStatsView {
    TagStatsView {
        name,
        total_cards: cards.filter(labelled(name)).len() as int,
        cards_due: cards.filter(labelled_due(name, now)).len() as int,
        cards_new: cards.filter(labelled_new(name)).len() as int,
        cards_mature: cards.filter(labelled_mature(name)).len() as int,
    }
}

/// Some card of `cards` belongs to the group `name`.
pub open spec fn has_label(cards: Seq<CardView>, name: Seq<char>) -> bool {
    exists|k: int| 0 <= k < cards.len() && label_of(#[trigger] cards[k]) == name
}

/// Some report of `stats` is about the group `name`.
pub open spec fn reports_label(stats: Seq<TagStatsView>, name: Seq<char>) -> bool {
    exists|j: int| 0 <= j < stats.len() && (#[trigger] stats[j]).name == name
}

/// The names of a sequence of reports, in the same order.
pub open spec fn names_of(stats: Seq<TagStatsView>) -> Seq<Seq<char>> {
    stats.map_values(|s: TagStatsView| s.name)
}

/// `stats` is the report on `cards` at `now`: one entry for each group that
/// has a card, in ascending order of the names, each with the counts of its
/// group.
pub open spec fn tag_stats_match(stats: Seq<TagStatsView>, cards: Seq<CardView>, now: Timestamp) -> bool {
    &&& strictly_sorted(names_of(stats))
    &&& forall|j: int|
        0 <= j < stats.len() ==> #[trigger] stats[j] == tag_stats_of(cards, stats[j].name, now)
    &&& forall|j: int| 0 <= j < stats.len() ==> has_label(cards, (#[trigger] stats[j]).name)
    &&& forall|k: int| 0 <= k < cards.len() ==> reports_label(stats, label_of(#[trigger] cards[k]))
}

/// 1 where `b` holds, else 0.
pub open spec fn one_if(b: bool) -> int {
    if b {
        1
    } else {
        0
    }
}

/// The counts of a group over one card more: the card adds to the counts of
/// its own group, each count it falls under, and to no other group's.
proof fn lemma_tag_stats_next(cards: Seq<CardView>, i: int, name: Seq<char>, now: Timestamp)
    requires
        0 <= i < cards.len(),
    ensures
        tag_stats_of(cards.take(i + 1), name, now) == ({
            let before = tag_stats_of(cards.take(i), name, now);
            let card = cards[i];
            let here = label_of(card) == name;
            TagStatsView {
                name,
                total_cards: before.total_cards + one_if(here),
                cards_due: before.cards_due + one_if(here && is_due_at(card, now)),
                cards_new: before.cards_new + one_if(here && card.review_count == 0),
                cards_mature: before.cards_mature + one_if(here && card.review_count >= 5),
            }
        }),
        0 <= tag_stats_of(cards.take(i), name, now).total_cards <= i,
        0 <= tag_stats_of(cards.take(i), name, now).cards_due <= i,
        0 <= tag_stats_of(cards.take(i), name, now).cards_new <= i,
        0 <= tag_stats_of(cards.take(i), name, now).cards_mature <= i,
{
    lemma_filter_next(cards, labelled(name), i);
    lemma_filter_next(cards, labelled_due(name, now), i);
    lemma_filter_next(cards, labelled_new(name), i);
    lemma_filter_next(cards, labelled_mature(name), i);
    cards.take(i).lemma_filter_len(labelled(name));
    cards.take(i).lemma_filter_len(labelled_due(name, now));
    cards.take(i).lemma_filter_len(labelled_new(name));
    cards.take(i).lemma_filter_len(labelled_mature(name));
}

/// A group without a card has counts of zero.
proof fn lemma_tag_stats_of_absent(cards: Seq<CardView>, name: Seq<char>, now: Timestamp)
    requires
        !has_label(cards, name),
    ensures
        tag_stats_of(cards, name, now) == (TagStatsView {
            name,
            total_cards: 0,
            cards_due: 0,
            cards_new: 0,
            cards_mature: 0,
        }),
{
    assert forall|k: int| 0 <= k < cards.len() implies label_of(#[trigger] cards[k]) != name by {
        if label_of(cards[k]) == name {
            assert(has_label(cards, name));
        }
    }
    lemma_filter_none(cards, labelled(name));
    lemma_filter_none(cards, labelled_due(name, now));
    lemma_filter_none(cards, labelled_new(name));
    lemma_filter_none(cards, labelled_mature(name));
}

/// The report `entry` with `card` counted in.
pub open spec fn counted_in(entry: TagStatsView, card: CardView, now: Timestamp) -> TagStatsView {
    TagStatsView {
        name: entry.name,
        total_cards: entry.total_cards + 1,
        cards_due: entry.cards_due + one_if(is_due_at(card, now)),
        cards_new: entry.cards_new + one_if(card.review_count == 0),
        cards_mature: entry.cards_mature + one_if(card.review_count >= 5),
    }
}

/// The report of a group that holds `card` and nothing else.
pub open spec fn first_in_group(card: CardView, now: Timestamp) -> TagStatsView {
    counted_in(
        TagStatsView {
            name: label_of(card),
            total_cards: 0,
            cards_due: 0,
            cards_new: 0,
            cards_mature: 0,
        },
        card,
        now,
    )
}

/// A report on some cards stays one on one card more when the card is
/// counted into the entry of its group.
proof fn lemma_count_into_group(
    before: Seq<TagStatsView>,
    cards: Seq<CardView>,
    i: int,
    p: int,
    now: Timestamp,
)
    requires
        0 <= i < cards.len(),
        tag_stats_match(before, cards.take(i), now),
        0 <= p < before.len(),
        before[p].name == label_of(cards[i]),
    ensures
        tag_stats_match(before.update(p, counted_in(before[p], cards[i], now)), cards.take(i + 1), now),
{
    let prefix = cards.take(i);
    let next = cards.take(i + 1);
    let card = cards[i];
    let after = before.update(p, counted_in(before[p], card, now));
    assert(next =~= prefix.push(card));
    assert(names_of(after) =~= names_of(before));
    assert forall|j: int| 0 <= j < after.len() implies #[trigger] after[j] == tag_stats_of(
        next,
        after[j].name,
        now,
    ) by {
        lemma_tag_stats_next(cards, i, before[j].name, now);
        if j != p {
            assert(after[j] == before[j]);
            assert(names_of(before)[j] == before[j].name);
            assert(names_of(before)[p] == before[p].name);
            if j < p {
                assert(text_precedes(names_of(before)[j], names_of(before)[p]));
                lemma_precedes_asymmetric(before[j].name, before[p].name);
            } else {
                assert(text_precedes(names_of(before)[p], names_of(before)[j]));
                lemma_precedes_asymmetric(before[p].name, before[j].name);
            }
        }
    }
    assert forall|j: int| 0 <= j < after.len() implies has_label(next, (#[trigger] after[j]).name) by {
        assert(after[j].name == before[j].name);
        let k = choose|k: int|
            0 <= k < prefix.len() && label_of(#[trigger] prefix[k]) == before[j].name;
        assert(label_of(next[k]) == before[j].name);
    }
    assert forall|k: int| 0 <= k < next.len() implies reports_label(
        after,
        label_of(#[trigger] next[k]),
    ) by {
        if k < i {
            assert(next[k] == prefix[k]);
            let j = choose|j: int|
                0 <= j < before.len() && (#[trigger] before[j]).name == label_of(prefix[k]);
            assert(after[j].name == label_of(next[k]));
        } else {
            assert(after[p].name == label_of(next[k]));
        }
    }
}

/// A report on some cards stays one on one card more when the card, the
/// first of its group, gets an entry of its own at the place where its name
/// belongs.
proof fn lemma_open_group(
    before: Seq<TagStatsView>,
    cards: Seq<CardView>,
    i: int,
    p: int,
    now: Timestamp,
)
    requires
        0 <= i < cards.len(),
        tag_stats_match(before, cards.take(i), now),
        0 <= p <= before.len(),
        forall|j: int| 0 <= j < p ==> text_precedes((#[trigger] before[j]).name, label_of(cards[i])),
        forall|j: int|
            p <= j < before.len() ==> text_precedes(label_of(cards[i]), (#[trigger] before[j]).name),
    ensures
        tag_stats_match(before.insert(p, first_in_group(cards[i], now)), cards.take(i + 1), now),
{
    let prefix = cards.take(i);
    let next = cards.take(i + 1);
    let card = cards[i];
    let name = label_of(card);
    let added = first_in_group(card, now);
    let after = before.insert(p, added);
    assert(next =~= prefix.push(card));
    assert(label_of(next[i]) == name);
    if has_label(prefix, name) {
        let k = choose|k: int| 0 <= k < prefix.len() && label_of(#[trigger] prefix[k]) == name;
        let j = choose|j: int|
            0 <= j < before.len() && (#[trigger] before[j]).name == label_of(prefix[k]);
        if j < p {
            lemma_precedes_asymmetric(before[j].name, name);
        } else {
            lemma_precedes_asymmetric(name, before[j].name);
        }
    }
    lemma_tag_stats_of_absent(prefix, name, now);
    lemma_tag_stats_next(cards, i, name, now);
    assert(names_of(after) =~= names_of(before).insert(p, name));
    let old_names = names_of(before);
    assert forall|a: int, b: int| 0 <= a < b < after.len() implies text_precedes(
        #[trigger] names_of(after)[a],
        #[trigger] names_of(after)[b],
    ) by {
        if b < p {
            assert(text_precedes(old_names[a], old_names[b]));
        } else if b == p {
            assert(names_of(after)[a] == before[a].name);
        } else if a < p {
            assert(text_precedes(old_names[a], old_names[b - 1]));
        } else if a == p {
            assert(names_of(after)[b] == before[b - 1].name);
        } else {
            assert(text_precedes(old_names[a - 1], old_names[b - 1]));
        }
    }
    assert forall|j: int| 0 <= j < after.len() implies #[trigger] after[j] == tag_stats_of(
        next,
        after[j].name,
        now,
    ) && has_label(next, after[j].name) by {
        if j != p {
            let o = if j < p {
                j
            } else {
                j - 1
            };
            assert(after[j] == before[o]);
            lemma_tag_stats_next(cards, i, before[o].name, now);
            if o < p {
                lemma_precedes_asymmetric(before[o].name, name);
            } else {
                lemma_precedes_asymmetric(name, before[o].name);
            }
            let k = choose|k: int|
                0 <= k < prefix.len() && label_of(#[trigger] prefix[k]) == before[o].name;
            assert(label_of(next[k]) == before[o].name);
        }
    }
    assert forall|k: int| 0 <= k < next.len() implies reports_label(
        after,
        label_of(#[trigger] next[k]),
    ) by {
        if k < i {
            assert(next[k] == prefix[k]);
            let j = choose|j: int|
                0 <= j < before.len() && (#[trigger] before[j]).name == label_of(prefix[k]);
            if j < p {
                assert(after[j].name == label_of(next[k]));
            } else {
                assert(after[j + 1].name == label_of(next[k]));
            }
        } else {
            assert(after[p].name == label_of(next[k]));
        }
    }
}

/// Where the group `name` stands, or would stand, in sorted `stats`.
fn group_position(stats: &Vec<TagStats>, name: &String) -> (p: usize)
    requires
        strictly_sorted(names_of(tag_stats_views(stats@))),
    ensures
        p <= stats@.len(),
        forall|i: int|
            0 <= i < p ==> text_precedes((#[trigger] tag_stats_views(stats@)[i]).name, name@),
        forall|i: int|
            p <= i < stats@.len() ==> ((#[trigger] tag_stats_views(stats@)[i]).name == name@ && i
                == p) || text_precedes(name@, tag_stats_views(stats@)[i].name),
{
    let ghost views = tag_stats_views(stats@);
    let ghost names = names_of(views);
    let mut p: usize = 0;
    while p < stats.len() && comes_before(&stats[p].name, name)
        invariant
            p <= stats@.len(),
            views == tag_stats_views(stats@),
            forall|i: int| 0 <= i < p ==> text_precedes((#[trigger] views[i]).name, name@),
        decreases stats@.len() - p,
    {
        p += 1;
    }
    proof {
        if p < stats@.len() {
            lemma_precedes_total(views[p as int].name, name@);
            assert forall|i: int| p <= i < stats@.len() implies ((#[trigger] views[i]).name
                == name@ && i == p) || text_precedes(name@, views[i].name) by {
                if i > p {
                    assert(text_precedes(names[p as int], names[i]));
                    if views[p as int].name != name@ {
                        lemma_precedes_transitive(name@, views[p as int].name, views[i].name);
                    }
                }
            }
        }
    }
    p
}

/// The name of the group that `card` is counted in.
fn label(card: &Card) -> (name: String)
    ensures
        name@ == label_of(card@),
{
    match &card.tag {
        Some(tag) => tag.clone(),
        None => String::from_str("Uncategorized"),
    }
}

/// Counts `card` into the report `entry`.
fn count_in(entry: &mut TagStats, card: &Card, now: Timestamp)
    requires
        old(entry).total_cards < usize::MAX,
        old(entry).cards_due < usize::MAX,
        old(entry).cards_new < usize::MAX,
        old(entry).cards_mature < usize::MAX,
    ensures
        final(entry)@ == counted_in(old(entry)@, card@, now),
{
    entry.total_cards = entry.total_cards + 1;
    if SpacedRepetition::is_due_at(card, now) {
        entry.cards_due = entry.cards_due + 1;
    }
    if card.review_count == 0 {
        entry.cards_new = entry.cards_new + 1;
    }
    if card.review_count >= 5 {
        entry.cards_mature = entry.cards_mature + 1;
    }
}

/// The report on `cards` at `now`: for each tag, and for the cards without
/// one under the name "Uncategorized", how many cards there are, how many
/// are due, how many were never reviewed and how many were reviewed five
/// times or more. The groups come in ascending order of their names.
pub fn collect_tag_stats(cards: &Vec<Card>, now: Timestamp) -> (stats: Vec<TagStats>)
    ensures
        tag_stats_match(tag_stats_views(stats@), card_views(cards@), now),
{
    let ghost all = card_views(cards@);
    let mut stats: Vec<TagStats> = Vec::new();
    let mut i: usize = 0;
    proof {
        assert(all.take(0) =~= Seq::<CardView>::empty());
    }
    while i < cards.len()
        invariant
            i <= cards.len(),
            all == card_views(cards@),
            tag_stats_match(tag_stats_views(stats@), all.take(i as int), now),
        decreases cards.len() - i,
    {
        let ghost before = tag_stats_views(stats@);
        let card = &cards[i];
        let name = label(card);
        let p = group_position(&stats, &name);
        if p < stats.len() && stats[p].name == name {
            proof {
                lemma_tag_stats_next(all, i as int, name@, now);
                lemma_count_into_group(before, all, i as int, p as int, now);
            }
            count_in(&mut stats[p], card, now);
            assert(tag_stats_views(stats@) =~= before.update(
                p as int,
                counted_in(before[p as int], all[i as int], now),
            ));
        } else {
            let mut entry = TagStats {
                name,
                total_cards: 0,
                cards_due: 0,
                cards_new: 0,
                cards_mature: 0,
            };
            count_in(&mut entry, card, now);
            proof {
                lemma_open_group(before, all, i as int, p as int, now);
            }
            stats.insert(p, entry);
            assert(tag_stats_views(stats@) =~= before.insert(
                p as int,
                first_in_group(all[i as int], now),
            ));
        }
        i += 1;
    }
    assert(all.take(cards.len() as int) =~= all);
    stats
}

/// The card counts of all groups of a report, added up.
pub open spec fn total_counted(stats: Seq<TagStatsView>) -> int
    decreases stats.len(),
{
    if stats.len() == 0 {
        0
    } else {
        total_counted(stats.drop_last()) + stats.last().total_cards
    }
}

/// The numbers of cards in the groups `names`, added up.
pub open spec fn members(names: Seq<Seq<char>>, cards: Seq<CardView>) -> int
    decreases names.len(),
{
    if names.len() == 0 {
        0
    } else {
        members(names.drop_last(), cards) + cards.filter(labelled(names.last())).len()
    }
}

/// How often `name` stands in `names`.
pub open spec fn occurrences(names: Seq<Seq<char>>, name: Seq<char>) -> int
    decreases names.len(),
{
    if names.len() == 0 {
        0
    } else {
        occurrences(names.drop_last(), name) + one_if(names.last() == name)
    }
}

proof fn lemma_occurs_once(names: Seq<Seq<char>>, name: Seq<char>)
    requires
        strictly_sorted(names),
    ensures
        occurrences(names, name) == one_if(names.contains(name)),
    decreases names.len(),
{
    if names.len() > 0 {
        let front = names.drop_last();
        assert forall|i: int, j: int| 0 <= i < j < front.len() implies text_precedes(
            #[trigger] front[i],
            #[trigger] front[j],
        ) by {
            assert(front[i] == names[i] && front[j] == names[j]);
        }
        lemma_occurs_once(front, name);
        if names.last() == name {
            if front.contains(name) {
                let i = choose|i: int| 0 <= i < front.len() && front[i] == name;
                assert(text_precedes(names[i], names[names.len() - 1]));
                lemma_precedes_asymmetric(names[i], names.last());
            }
            assert(names[names.len() - 1] == name);
        } else {
            if front.contains(name) {
                let i = choose|i: int| 0 <= i < front.len() && front[i] == name;
                assert(names[i] == name);
            }
            if names.contains(name) {
                let i = choose|i: int| 0 <= i < names.len() && names[i] == name;
                assert(front[i] == name);
            }
        }
    }
}

proof fn lemma_members_push(names: Seq<Seq<char>>, cards: Seq<CardView>, card: CardView)
    ensures
        members(names, cards.push(card)) == members(names, cards) + occurrences(
            names,
            label_of(card),
        ),
    decreases names.len(),
{
    if names.len() > 0 {
        lemma_members_push(names.drop_last(), cards, card);
        cards.lemma_filter_push(card, labelled(names.last()));
    }
}

proof fn lemma_members_of_none(names: Seq<Seq<char>>)
    ensures
        members(names, Seq::<CardView>::empty()) == 0,
    decreases names.len(),
{
    if names.len() > 0 {
        lemma_members_of_none(names.drop_last());
        lemma_filter_empty(labelled(names.last()));
    }
}

proof fn lemma_members_cover(names: Seq<Seq<char>>, cards: Seq<CardView>)
    requires
        strictly_sorted(names),
        forall|k: int| 0 <= k < cards.len() ==> names.contains(label_of(#[trigger] cards[k])),
    ensures
        members(names, cards) == cards.len(),
    decreases cards.len(),
{
    if cards.len() == 0 {
        assert(cards =~= Seq::<CardView>::empty());
        lemma_members_of_none(names);
    } else {
        let front = cards.drop_last();
        assert forall|k: int| 0 <= k < front.len() implies names.contains(
            label_of(#[trigger] front[k]),
        ) by {
            assert(front[k] == cards[k]);
        }
        lemma_members_cover(names, front);
        lemma_members_push(names, front, cards.last());
        assert(front.push(cards.last()) =~= cards);
        lemma_occurs_once(names, label_of(cards.last()));
        assert(names.contains(label_of(cards[cards.len() - 1])));
    }
}

proof fn lemma_total_is_members(stats: Seq<TagStatsView>, cards: Seq<CardView>, now: Timestamp)
    requires
        forall|j: int|
            0 <= j < stats.len() ==> #[trigger] stats[j] == tag_stats_of(cards, stats[j].name, now),
    ensures
        total_counted(stats) == members(names_of(stats), cards),
    decreases stats.len(),
{
    if stats.len() > 0 {
        let front = stats.drop_last();
        assert forall|j: int| 0 <= j < front.len() implies #[trigger] front[j] == tag_stats_of(
            cards,
            front[j].name,
            now,
        ) by {
            assert(front[j] == stats[j]);
        }
        lemma_total_is_members(front, cards, now);
        assert(names_of(stats).drop_last() =~= names_of(front));
        assert(names_of(stats).last() == stats.last().name);
        assert(stats[stats.len() - 1] == tag_stats_of(cards, stats[stats.len() - 1].name, now));
    }
}

/// Every card is counted in exactly one group: the card counts of a report
/// add up to the number of cards.
pub proof fn lemma_each_card_counted_once(
    stats: Seq<TagStatsView>,
    cards: Seq<CardView>,
    now: Timestamp,
)
    requires
        tag_stats_match(stats, cards, now),
    ensures
        total_counted(stats) == cards.len(),
{
    let names = names_of(stats);
    lemma_total_is_members(stats, cards, now);
    assert forall|k: int| 0 <= k < cards.len() implies names.contains(
        label_of(#[trigger] cards[k]),
    ) by {
        let j = choose|j: int|
            0 <= j < stats.len() && (#[trigger] stats[j]).name == label_of(cards[k]);
        assert(names[j] == label_of(cards[k]));
    }
    lemma_members_cover(names, cards);
}

/// A card without a tag is counted under "Uncategorized", and under no other
/// name: the report has an entry of that name, and the card belongs to no
/// group but this.
pub proof fn lemma_untagged_is_uncategorized(
    stats: Seq<TagStatsView>,
    cards: Seq<CardView>,
    now: Timestamp,
    k: int,
)
    requires
        tag_stats_match(stats, cards, now),
        0 <= k < cards.len(),
        cards[k].tag is None,
    ensures
        reports_label(stats, uncategorized()),
        forall|name: Seq<char>| #[trigger] labelled(name)(cards[k]) <==> name == uncategorized(),
{
    assert(label_of(cards[k]) == uncategorized());
}

/// Two sorted sequences with the same names are the same sequence.
pub proof fn lemma_sorted_names_agree(a: Seq<Seq<char>>, b: Seq<Seq<char>>)
    requires
        strictly_sorted(a),
        strictly_sorted(b),
        forall|t: Seq<char>| a.contains(t) <==> b.contains(t),
    ensures
        a == b,
    decreases a.len(),
{
    if a.len() == 0 {
        if b.len() > 0 {
            assert(b.contains(b[0]));
        }
        assert(a =~= b);
    } else {
        let top = a.last();
        assert(a.contains(a[a.len() - 1]));
        assert(b.contains(top));
        let at = choose|i: int| 0 <= i < b.len() && b[i] == top;
        if at < b.len() - 1 {
            // a later name of `b` would have to stand in `a`, after its last
            let beyond = b[b.len() - 1];
            assert(text_precedes(b[at], b[b.len() - 1]));
            assert(b.contains(beyond));
            let back = choose|i: int| 0 <= i < a.len() && a[i] == beyond;
            if back < a.len() - 1 {
                assert(text_precedes(a[back], a[a.len() - 1]));
            }
            lemma_precedes_asymmetric(top, beyond);
        }
        let a_front = a.drop_last();
        let b_front = b.drop_last();
        assert forall|i: int, j: int| 0 <= i < j < a_front.len() implies text_precedes(
            #[trigger] a_front[i],
            #[trigger] a_front[j],
        ) by {
            assert(a_front[i] == a[i] && a_front[j] == a[j]);
        }
        assert forall|i: int, j: int| 0 <= i < j < b_front.len() implies text_precedes(
            #[trigger] b_front[i],
            #[trigger] b_front[j],
        ) by {
            assert(b_front[i] == b[i] && b_front[j] == b[j]);
        }
        assert forall|t: Seq<char>| a_front.contains(t) <==> b_front.contains(t) by {
            if a_front.contains(t) {
                let i = choose|i: int| 0 <= i < a_front.len() && a_front[i] == t;
                assert(a[i] == t);
                assert(text_precedes(a[i], a[a.len() - 1]));
                lemma_precedes_asymmetric(t, top);
                assert(a.contains(t));
                let j = choose|j: int| 0 <= j < b.len() && b[j] == t;
                assert(b_front[j] == t);
            }
            if b_front.contains(t) {
                let i = choose|i: int| 0 <= i < b_front.len() && b_front[i] == t;
                assert(b[i] == t);
                assert(text_precedes(b[i], b[b.len() - 1]));
                lemma_precedes_asymmetric(t, top);
                assert(b.contains(t));
                let j = choose|j: int| 0 <= j < a.len() && a[j] == t;
                assert(a_front[j] == t);
            }
        }
        lemma_sorted_names_agree(a_front, b_front);
        assert(a =~= a_front.push(top));
        assert(b =~= b_front.push(top));
    }
}

/// The cards decide their list of tags: two lists that both match are the
/// same.
pub proof fn lemma_tags_are_determined(
    first: Seq<Seq<char>>,
    second: Seq<Seq<char>>,
    cards: Seq<CardView>,
)
    requires
        tags_match(first, cards),
        tags_match(second, cards),
    ensures
        first == second,
{
    assert forall|t: Seq<char>| first.contains(t) <==> second.contains(t) by {
        assert(first.contains(t) <==> has_tag(cards, t));
        assert(second.contains(t) <==> has_tag(cards, t));
    }
    lemma_sorted_names_agree(first, second);
}

/// In a report that matches the cards, the names are the groups that have a
/// card.
proof fn lemma_reported_names(stats: Seq<TagStatsView>, cards: Seq<CardView>, now: Timestamp)
    requires
        tag_stats_match(stats, cards, now),
    ensures
        forall|t: Seq<char>| names_of(stats).contains(t) <==> has_label(cards, t),
{
    let names = names_of(stats);
    assert forall|t: Seq<char>| names.contains(t) <==> has_label(cards, t) by {
        if names.contains(t) {
            let j = choose|j: int| 0 <= j < names.len() && names[j] == t;
            assert(has_label(cards, stats[j].name));
        }
        if has_label(cards, t) {
            let k = choose|k: int| 0 <= k < cards.len() && label_of(#[trigger] cards[k]) == t;
            assert(reports_label(stats, label_of(cards[k])));
            let j = choose|j: int| 0 <= j < stats.len() && (#[trigger] stats[j]).name == t;
            assert(names[j] == t);
        }
    }
}

/// The cards and the instant decide the report per tag: two reports that
/// both match are the same.
pub proof fn lemma_tag_stats_are_determined(
    first: Seq<TagStatsView>,
    second: Seq<TagStatsView>,
    cards: Seq<CardView>,
    now: Timestamp,
)
    requires
        tag_stats_match(first, cards, now),
        tag_stats_match(second, cards, now),
    ensures
        first == second,
{
    lemma_reported_names(first, cards, now);
    lemma_reported_names(second, cards, now);
    lemma_sorted_names_agree(names_of(first), names_of(second));
    assert(first.len() == names_of(first).len());
    assert(second.len() == names_of(second).len());
    assert forall|j: int| 0 <= j < first.len() implies first[j] == second[j] by {
        assert(names_of(first)[j] == first[j].name);
        assert(names_of(second)[j] == second[j].name);
    }
    assert(first =~= second);
}

} // verus!
