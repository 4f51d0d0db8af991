use flashcards::card_service::CardService;
use flashcards::card_time::Timestamp;
use flashcards::collection::CardCollection;
use flashcards::models::{
    AppSettings, BulkUpdateRequest, Card, CreateCardRequest, ReviewDifficulty, SearchRequest,
    SpacedRepetitionAlgorithm, UpdateCardRequest,
};
use flashcards::spaced_repetition::SpacedRepetition;
use flashcards::tags::{collect_tag_stats, collect_tags};
use flashcards::text::found_in_either;

fn at(secs: i64) -> Timestamp {
    Timestamp::new(secs, 0)
}

fn request(front: &str, back: &str, tag: Option<&str>) -> CreateCardRequest {
    CreateCardRequest {
        front: front.to_string(),
        back: back.to_string(),
        tag: tag.map(|t| t.to_string()),
    }
}

fn add(service: &mut CardService, id: &str, front: &str, back: &str, tag: Option<&str>) -> Card {
    service.create_card_with(id.to_string(), at(1_000), request(front, back, tag))
}

fn ids(cards: &[Card]) -> Vec<String> {
    cards.iter().map(|c| c.id.clone()).collect()
}

fn plain(id: &str, tag: Option<&str>) -> Card {
    Card {
        id: id.to_string(),
        front: format!("front {}", id),
        back: format!("back {}", id),
        tag: tag.map(|t| t.to_string()),
        created_at: at(0),
        last_reviewed: None,
        next_review: at(0),
        interval: 0,
        ease_factor: 2500,
        review_count: 0,
        correct_count: 0,
        leitner_box: 0,
        exponential_factor: 1000,
    }
}

#[test]
fn a_new_service_is_empty_with_initial_settings_and_nothing_to_save() {
    let service = CardService::new(None, None);
    assert!(service.get_cards().unwrap().is_empty());
    let settings = service.get_settings().unwrap();
    assert_eq!(settings.algorithm, SpacedRepetitionAlgorithm::SM2);
    assert_eq!(settings.leitner_intervals, vec![1, 3, 7, 14, 30]);
    assert_eq!(settings.exponential_base, 2000);
    assert!(!service.cards_need_saving());
    assert!(!service.settings_need_saving());
}

#[test]
fn a_service_keeps_the_cards_and_settings_it_is_given() {
    let mut settings = AppSettings::default();
    settings.algorithm = SpacedRepetitionAlgorithm::Leitner;
    settings.leitner_intervals = vec![2, 4];
    let service =
        CardService::new(Some(vec![plain("b", None), plain("a", Some("x"))]), Some(settings));
    assert_eq!(ids(&service.get_cards().unwrap()), vec!["b", "a"]);
    assert_eq!(service.get_settings().unwrap().leitner_intervals, vec![2, 4]);
    assert!(!service.cards_need_saving());
}

#[test]
fn of_two_loaded_cards_with_one_id_the_later_stays() {
    let mut second = plain("a", Some("late"));
    second.front = "second".to_string();
    let service =
        CardService::new(Some(vec![plain("a", None), plain("b", None), second]), None);
    let cards = service.get_cards().unwrap();
    assert_eq!(ids(&cards), vec!["a", "b"]);
    assert_eq!(cards[0].front, "second");
    assert_eq!(cards[0].tag, Some("late".to_string()));
}

#[test]
fn a_snapshot_given_to_a_new_service_is_the_same_collection() {
    let mut first = CardService::new(None, None);
    add(&mut first, "1", "Q1", "A1", Some("t"));
    add(&mut first, "2", "Q2", "A2", None);
    first.review_card_at("1".to_string(), ReviewDifficulty::Easy, at(2_000)).unwrap();
    let snapshot = first.get_cards().unwrap();
    let second = CardService::new(Some(first.get_cards().unwrap()), None);
    let again = second.get_cards().unwrap();
    assert_eq!(format!("{:?}", again), format!("{:?}", snapshot));
    let third = CardService::new(Some(again), None);
    assert_eq!(format!("{:?}", third.get_cards().unwrap()), format!("{:?}", snapshot));
}

#[test]
fn a_created_card_has_its_initial_state_and_is_due() {
    let mut service = CardService::new(None, None);
    let now = Timestamp::new(1_700_000_000, 123);
    let card =
        service.create_card_with("id-1".to_string(), now, request("Q", "A", Some("Math")));
    assert_eq!(card.id, "id-1");
    assert_eq!(card.front, "Q");
    assert_eq!(card.back, "A");
    assert_eq!(card.tag, Some("Math".to_string()));
    assert_eq!(card.ease_factor, 2500);
    assert_eq!(card.interval, 0);
    assert_eq!(card.created_at, now);
    assert_eq!(card.next_review, card.created_at);
    assert_eq!(card.last_reviewed, None);
    assert_eq!(card.review_count, 0);
    assert_eq!(card.correct_count, 0);
    assert_eq!(card.leitner_box, 0);
    assert_eq!(card.exponential_factor, 1000);
    assert!(SpacedRepetition::is_due_at(&card, now));
    assert_eq!(ids(&service.get_due_cards_at(now)), vec!["id-1"]);
    assert!(service.get_due_cards_at(Timestamp::new(1_700_000_000, 122)).is_empty());
    assert!(service.cards_need_saving());
    assert!(!service.settings_need_saving());
}

#[test]
fn fresh_ids_are_uuids_and_differ() {
    let mut service = CardService::new(None, None);
    let a = service.create_card(request("Q1", "A1", None)).unwrap();
    let b = service.create_card(request("Q2", "A2", None)).unwrap();
    assert_eq!(a.id.chars().count(), 36);
    assert_eq!(b.id.chars().count(), 36);
    assert_ne!(a.id, b.id);
    assert_eq!(a.next_review, a.created_at);
    assert_eq!(service.get_cards().unwrap().len(), 2);
}

#[test]
fn creating_under_a_used_id_replaces_the_card() {
    let mut service = CardService::new(None, None);
    add(&mut service, "1", "old", "old", None);
    add(&mut service, "2", "other", "other", None);
    add(&mut service, "1", "new", "new", Some("t"));
    let cards = service.get_cards().unwrap();
    assert_eq!(ids(&cards), vec!["1", "2"]);
    assert_eq!(cards[0].front, "new");
}

#[test]
fn get_card_finds_by_id() {
    let mut service = CardService::new(None, None);
    add(&mut service, "1", "Q1", "A1", None);
    add(&mut service, "2", "Q2", "A2", None);
    assert_eq!(service.get_card("2".to_string()).unwrap().unwrap().front, "Q2");
    assert!(service.get_card("3".to_string()).unwrap().is_none());
    assert!(service.get_card("".to_string()).unwrap().is_none());
}

#[test]
fn update_replaces_texts_and_tag_only() {
    let mut service = CardService::new(None, None);
    add(&mut service, "1", "Q1", "A1", Some("old"));
    let reviewed =
        service.review_card_at("1".to_string(), ReviewDifficulty::Good, at(5_000)).unwrap();
    service.mark_cards_saved();
    let updated = service
        .update_card(
            "1".to_string(),
            UpdateCardRequest { front: "F".to_string(), back: "B".to_string(), tag: None },
        )
        .unwrap();
    assert_eq!(updated.front, "F");
    assert_eq!(updated.back, "B");
    assert_eq!(updated.tag, None);
    assert_eq!(updated.id, "1");
    assert_eq!(updated.created_at, reviewed.created_at);
    assert_eq!(updated.last_reviewed, reviewed.last_reviewed);
    assert_eq!(updated.next_review, reviewed.next_review);
    assert_eq!(updated.interval, reviewed.interval);
    assert_eq!(updated.ease_factor, reviewed.ease_factor);
    assert_eq!(updated.review_count, reviewed.review_count);
    assert_eq!(updated.correct_count, reviewed.correct_count);
    assert_eq!(updated.leitner_box, reviewed.leitner_box);
    assert_eq!(updated.exponential_factor, reviewed.exponential_factor);
    assert_eq!(service.get_card("1".to_string()).unwrap().unwrap().front, "F");
    assert!(service.cards_need_saving());
}

#[test]
fn operations_on_a_missing_card_fail_and_change_nothing() {
    let mut service = CardService::new(None, None);
    add(&mut service, "1", "Q1", "A1", None);
    service.mark_cards_saved();
    let before = format!("{:?}", service.get_cards().unwrap());
    let update = service.update_card(
        "x".to_string(),
        UpdateCardRequest { front: "F".to_string(), back: "B".to_string(), tag: None },
    );
    assert_eq!(update.unwrap_err(), "Card not found");
    assert_eq!(service.delete_card("x".to_string()).unwrap_err(), "Card not found");
    let review = service.review_card_at("x".to_string(), ReviewDifficulty::Good, at(1));
    assert_eq!(review.unwrap_err(), "Card not found");
    assert_eq!(
        service.review_card("x".to_string(), ReviewDifficulty::Good).unwrap_err(),
        "Card not found"
    );
    assert_eq!(format!("{:?}", service.get_cards().unwrap()), before);
    assert!(!service.cards_need_saving());
}

#[test]
fn delete_removes_one_card_and_keeps_the_order() {
    let mut service = CardService::new(None, None);
    add(&mut service, "1", "Q1", "A1", None);
    add(&mut service, "2", "Q2", "A2", None);
    add(&mut service, "3", "Q3", "A3", None);
    service.mark_cards_saved();
    assert!(service.delete_card("2".to_string()).is_ok());
    assert_eq!(ids(&service.get_cards().unwrap()), vec!["1", "3"]);
    assert!(service.cards_need_saving());
}

#[test]
fn a_review_counts_and_schedules() {
    let mut service = CardService::new(None, None);
    add(&mut service, "1", "Q1", "A1", None);
    let now = Timestamp::new(50_000, 9);
    let good = service.review_card_at("1".to_string(), ReviewDifficulty::Good, now).unwrap();
    assert_eq!(good.review_count, 1);
    assert_eq!(good.correct_count, 1);
    assert_eq!(good.interval, 1);
    assert_eq!(good.ease_factor, 2500);
    assert_eq!(good.last_reviewed, Some(now));
    assert_eq!(good.next_review, Timestamp::new(50_000 + 86_400, 9));
    let hard = service.review_card_at("1".to_string(), ReviewDifficulty::Hard, now).unwrap();
    assert_eq!((hard.review_count, hard.correct_count), (2, 1));
    assert_eq!((hard.interval, hard.ease_factor), (2, 2350));
    let again = service.review_card_at("1".to_string(), ReviewDifficulty::Again, now).unwrap();
    assert_eq!((again.review_count, again.correct_count), (3, 1));
    assert_eq!((again.interval, again.ease_factor), (1, 2150));
    let easy = service.review_card_at("1".to_string(), ReviewDifficulty::Easy, now).unwrap();
    assert_eq!((easy.review_count, easy.correct_count), (4, 2));
    // ceil(1 * 2.15 * 1.3) = ceil(2.795)
    assert_eq!((easy.interval, easy.ease_factor), (3, 2300));
    let stored = service.get_card("1".to_string()).unwrap().unwrap();
    assert_eq!(format!("{:?}", stored), format!("{:?}", easy));
}

#[test]
fn review_counters_stop_at_the_largest_value() {
    let mut card = plain("1", None);
    card.review_count = u32::MAX;
    card.correct_count = u32::MAX;
    let mut service = CardService::new(Some(vec![card]), None);
    let r = service.review_card_at("1".to_string(), ReviewDifficulty::Good, at(0)).unwrap();
    assert_eq!((r.review_count, r.correct_count), (u32::MAX, u32::MAX));
}

#[test]
fn a_review_follows_the_settings_in_force() {
    let mut service = CardService::new(None, None);
    add(&mut service, "1", "Q1", "A1", None);
    let mut settings = AppSettings::default();
    settings.algorithm = SpacedRepetitionAlgorithm::Leitner;
    settings.leitner_intervals = vec![2, 5, 9];
    service.update_settings(settings).unwrap();
    let r = service.review_card_at("1".to_string(), ReviewDifficulty::Good, at(0)).unwrap();
    assert_eq!((r.interval, r.leitner_box, r.ease_factor, r.exponential_factor), (5, 1, 2500, 1000));
    let mut settings = AppSettings::default();
    settings.algorithm = SpacedRepetitionAlgorithm::SimpleExponential;
    settings.exponential_base = 3000;
    service.update_settings(settings).unwrap();
    let r = service.review_card_at("1".to_string(), ReviewDifficulty::Easy, at(0)).unwrap();
    assert_eq!((r.interval, r.leitner_box, r.ease_factor, r.exponential_factor), (3, 1, 2500, 3000));
}

#[test]
fn due_cards_are_exactly_those_not_after_now() {
    let mut a = plain("a", None);
    a.next_review = at(100);
    let mut b = plain("b", None);
    b.next_review = at(200);
    b.review_count = 4;
    let mut c = plain("c", None);
    c.next_review = at(150);
    let service = CardService::new(Some(vec![a, b, c]), None);
    assert!(service.get_due_cards_at(at(99)).is_empty());
    assert_eq!(ids(&service.get_due_cards_at(at(100))), vec!["a"]);
    assert_eq!(ids(&service.get_due_cards_at(at(150))), vec!["a", "c"]);
    assert_eq!(ids(&service.get_due_cards_at(at(1_000))), vec!["a", "b", "c"]);
}

#[test]
fn stats_count_a_new_due_card_under_both_headings() {
    let mut new_due = plain("1", None);
    new_due.next_review = at(10);
    let mut learning = plain("2", None);
    learning.review_count = 3;
    learning.interval = 20;
    learning.next_review = at(500);
    let mut mature = plain("3", None);
    mature.review_count = 8;
    mature.interval = 21;
    mature.next_review = at(500);
    let mut new_long = plain("4", None);
    new_long.interval = 30;
    new_long.next_review = at(500);
    let service = CardService::new(Some(vec![new_due, learning, mature, new_long]), None);
    let stats = service.get_review_stats_at(at(100));
    assert_eq!(stats.total_cards, 4);
    assert_eq!(stats.cards_due, 1);
    assert_eq!(stats.cards_new, 2);
    assert_eq!(stats.cards_learning, 1);
    assert_eq!(stats.cards_mature, 2);
    let later = service.get_review_stats_at(at(500));
    assert_eq!(later.cards_due, 4);
}

#[test]
fn search_is_case_blind_on_text_and_exact_on_tag() {
    let mut service = CardService::new(None, None);
    add(&mut service, "1", "Python Programming", "A language", Some("Tech"));
    add(&mut service, "2", "Cooking", "uses PROGRAMMING of ovens", Some("tech"));
    add(&mut service, "3", "Math problem", "2+2=4", Some("Math"));
    add(&mut service, "4", "Untagged programming", "x", None);
    let find = |service: &CardService, query: Option<&str>, tag: Option<&str>| {
        ids(&service
            .search_cards(SearchRequest {
                query: query.map(|q| q.to_string()),
                tag: tag.map(|t| t.to_string()),
                tags: None,
            })
            .unwrap())
    };
    assert_eq!(find(&service, Some("programming"), None), vec!["1", "2", "4"]);
    assert_eq!(find(&service, Some("PROGRAMMING"), None), vec!["1", "2", "4"]);
    assert_eq!(find(&service, Some("pRoGrAm"), Some("Tech")), vec!["1"]);
    assert_eq!(find(&service, None, Some("Tech")), vec!["1"]);
    assert_eq!(find(&service, None, Some("tech")), vec!["2"]);
    assert_eq!(find(&service, None, Some("Te")), Vec::<String>::new());
    assert_eq!(find(&service, Some(""), None), vec!["1", "2", "3", "4"]);
    assert_eq!(find(&service, None, None), vec!["1", "2", "3", "4"]);
    assert_eq!(find(&service, Some("2+2"), None), vec!["3"]);
    assert_eq!(find(&service, Some("absent"), None), Vec::<String>::new());
    assert_eq!(find(&service, Some("programming"), Some("Math")), Vec::<String>::new());
}

#[test]
fn a_text_is_found_in_front_or_back() {
    let s = |t: &str| t.to_string();
    assert!(found_in_either(&s("python programming"), &s("a language"), &s("programming")));
    assert!(found_in_either(&s("python"), &s("a language"), &s("lang")));
    assert!(found_in_either(&s("python"), &s("a language"), &s("")));
    assert!(found_in_either(&s(""), &s(""), &s("")));
    assert!(!found_in_either(&s("python"), &s("a language"), &s("Python")));
    assert!(!found_in_either(&s("py"), &s("thon"), &s("python")));
    assert!(!found_in_either(&s(""), &s(""), &s("a")));
}

#[test]
fn tags_come_once_and_in_order() {
    let mut service = CardService::new(None, None);
    add(&mut service, "1", "Q", "A", Some("b"));
    add(&mut service, "2", "Q", "A", Some("a"));
    add(&mut service, "3", "Q", "A", None);
    add(&mut service, "4", "Q", "A", Some("b"));
    add(&mut service, "5", "Q", "A", Some("B"));
    add(&mut service, "6", "Q", "A", Some("ab"));
    add(&mut service, "7", "Q", "A", Some(""));
    add(&mut service, "8", "Q", "A", Some("\u{e9}"));
    assert_eq!(service.get_tags().unwrap(), vec!["", "B", "a", "ab", "b", "\u{e9}"]);
    assert!(CardService::new(None, None).get_tags().unwrap().is_empty());
    assert_eq!(collect_tags(&vec![plain("1", Some("z")), plain("2", Some("y"))]), vec!["y", "z"]);
}

#[test]
fn tag_stats_count_each_card_in_one_group() {
    let mut untagged = plain("1", None);
    untagged.next_review = at(10);
    let mut math_new = plain("2", Some("Math"));
    math_new.next_review = at(500);
    let mut math_old = plain("3", Some("Math"));
    math_old.review_count = 5;
    math_old.next_review = at(20);
    let mut art = plain("4", Some("Art"));
    art.review_count = 4;
    art.interval = 40;
    art.next_review = at(500);
    let named = plain("5", Some("Uncategorized"));
    let cards = vec![untagged, math_new, math_old, art, named];
    let stats = collect_tag_stats(&cards, at(100));
    let names: Vec<&str> = stats.iter().map(|s| s.name.as_str()).collect();
    assert_eq!(names, vec!["Art", "Math", "Uncategorized"]);
    let row = |i: usize| {
        (stats[i].total_cards, stats[i].cards_due, stats[i].cards_new, stats[i].cards_mature)
    };
    assert_eq!(row(0), (1, 0, 0, 0));
    assert_eq!(row(1), (2, 1, 1, 1));
    assert_eq!(row(2), (2, 2, 2, 0));
    assert_eq!(stats.iter().map(|s| s.total_cards).sum::<usize>(), cards.len());
    let service = CardService::new(Some(cards), None);
    let same = service.get_tag_stats_at(at(100));
    assert_eq!(format!("{:?}", same), format!("{:?}", stats));
    assert!(collect_tag_stats(&Vec::new(), at(0)).is_empty());
}

#[test]
fn an_untagged_card_is_counted_under_uncategorized_only() {
    let mut service = CardService::new(None, None);
    add(&mut service, "1", "Q", "A", None);
    let stats = service.get_tag_stats().unwrap();
    assert_eq!(stats.len(), 1);
    assert_eq!(stats[0].name, "Uncategorized");
    assert_eq!(stats[0].total_cards, 1);
    assert_eq!(stats[0].cards_due, 1);
    assert_eq!(stats[0].cards_new, 1);
    assert_eq!(stats[0].cards_mature, 0);
}

#[test]
fn bulk_update_retags_the_cards_that_exist() {
    let mut service = CardService::new(None, None);
    add(&mut service, "1", "Q1", "A1", Some("old"));
    add(&mut service, "2", "Q2", "A2", None);
    add(&mut service, "3", "Q3", "A3", Some("keep"));
    service.mark_cards_saved();
    let updated = service
        .bulk_update_tag(BulkUpdateRequest {
            card_ids: vec!["2".to_string(), "nope".to_string(), "1".to_string(), "2".to_string()],
            tag: Some("new".to_string()),
        })
        .unwrap();
    assert_eq!(ids(&updated), vec!["2", "1", "2"]);
    assert!(updated.iter().all(|c| c.tag == Some("new".to_string())));
    let cards = service.get_cards().unwrap();
    assert_eq!(ids(&cards), vec!["1", "2", "3"]);
    assert_eq!(cards[0].tag, Some("new".to_string()));
    assert_eq!(cards[1].tag, Some("new".to_string()));
    assert_eq!(cards[2].tag, Some("keep".to_string()));
    assert_eq!(cards[0].front, "Q1");
    assert!(service.cards_need_saving());
    service.mark_cards_saved();
    let cleared = service
        .bulk_update_tag(BulkUpdateRequest { card_ids: vec!["3".to_string()], tag: None })
        .unwrap();
    assert_eq!(cleared[0].tag, None);
    assert!(service.cards_need_saving());
}

#[test]
fn bulk_update_of_missing_cards_owes_no_save() {
    let mut service = CardService::new(None, None);
    add(&mut service, "1", "Q1", "A1", Some("old"));
    service.mark_cards_saved();
    let updated = service
        .bulk_update_tag(BulkUpdateRequest {
            card_ids: vec!["x".to_string(), "y".to_string()],
            tag: Some("new".to_string()),
        })
        .unwrap();
    assert!(updated.is_empty());
    assert!(!service.cards_need_saving());
    assert_eq!(service.get_cards().unwrap()[0].tag, Some("old".to_string()));
    let none = service.bulk_update_tag(BulkUpdateRequest { card_ids: Vec::new(), tag: None });
    assert!(none.unwrap().is_empty());
    assert!(!service.cards_need_saving());
}

#[test]
fn deleting_a_missing_id_twice_succeeds_and_touches_nothing() {
    let mut service = CardService::new(None, None);
    add(&mut service, "1", "Q1", "A1", None);
    add(&mut service, "2", "Q2", "A2", None);
    service.mark_cards_saved();
    let before = format!("{:?}", service.get_cards().unwrap());
    let result = service.delete_multiple_cards(vec!["gone".to_string(), "gone".to_string()]);
    assert!(result.is_ok());
    assert_eq!(format!("{:?}", service.get_cards().unwrap()), before);
    assert!(!service.cards_need_saving());
    assert!(service.delete_multiple_cards(Vec::new()).is_ok());
    assert!(!service.cards_need_saving());
}

#[test]
fn deleting_many_removes_the_listed_cards_and_owes_one_save() {
    let mut service = CardService::new(None, None);
    for id in ["1", "2", "3", "4"] {
        add(&mut service, id, "Q", "A", None);
    }
    service.mark_cards_saved();
    let result = service.delete_multiple_cards(vec![
        "3".to_string(),
        "gone".to_string(),
        "1".to_string(),
        "3".to_string(),
    ]);
    assert!(result.is_ok());
    assert_eq!(ids(&service.get_cards().unwrap()), vec!["2", "4"]);
    assert!(service.cards_need_saving());
    service.mark_cards_saved();
    assert!(!service.cards_need_saving());
}

#[test]
fn settings_are_replaced_whole_and_owe_a_save_of_their_own() {
    let mut service = CardService::new(None, None);
    let mut settings = AppSettings::default();
    settings.algorithm = SpacedRepetitionAlgorithm::SimpleExponential;
    settings.leitner_intervals = Vec::new();
    settings.exponential_base = 1800;
    let back = service.update_settings(settings).unwrap();
    assert_eq!(back.exponential_base, 1800);
    let stored = service.get_settings().unwrap();
    assert_eq!(stored.algorithm, SpacedRepetitionAlgorithm::SimpleExponential);
    assert!(stored.leitner_intervals.is_empty());
    assert_eq!(stored.exponential_base, 1800);
    assert!(service.settings_need_saving());
    assert!(!service.cards_need_saving());
    service.mark_settings_saved();
    assert!(!service.settings_need_saving());
}

#[test]
fn a_collection_holds_each_id_once() {
    let mut cards = CardCollection::new();
    assert!(cards.is_empty());
    assert!(cards.insert(plain("1", None)).is_none());
    assert!(cards.insert(plain("2", None)).is_none());
    let previous = cards.insert(plain("1", Some("t")));
    assert_eq!(previous.unwrap().tag, None);
    assert_eq!(cards.len(), 2);
    assert_eq!(ids(cards.values()), vec!["1", "2"]);
    assert_eq!(cards.get(&"1".to_string()).unwrap().tag, Some("t".to_string()));
    assert!(cards.get(&"3".to_string()).is_none());
    assert!(cards.contains_key(&"2".to_string()));
    assert!(!cards.contains_key(&"3".to_string()));
    assert_eq!(cards.position(&"2".to_string()), Some(1));
    assert_eq!(cards.position(&"3".to_string()), None);
    assert!(cards.remove(&"3".to_string()).is_none());
    assert_eq!(cards.remove(&"1".to_string()).unwrap().id, "1");
    assert_eq!(ids(cards.values()), vec!["2"]);
    cards.ids_are_distinct();
    let built = CardCollection::from_cards(vec![plain("x", None), plain("y", None)]);
    assert_eq!(ids(built.values()), vec!["x", "y"]);
}

#[test]
fn due_lists_from_a_collection_and_from_a_slice_agree() {
    let mut a = plain("a", None);
    a.next_review = at(100);
    let mut b = plain("b", None);
    b.next_review = at(300);
    let list = vec![a.clone(), b.clone()];
    let collection = CardCollection::from_cards(vec![a, b]);
    assert_eq!(ids(&SpacedRepetition::get_due_cards_from_vec_at(&list, at(200))), vec!["a"]);
    assert_eq!(ids(&SpacedRepetition::get_due_cards_at(&collection, at(200))), vec!["a"]);
    let stats = SpacedRepetition::calculate_stats_at(&collection, at(200));
    assert_eq!((stats.total_cards, stats.cards_due, stats.cards_new), (2, 1, 2));
}
