use ringside::decimal::Decimal;
use ringside::entities::{Event, Match, MatchDesc, NewRating, RequestRating};
use ringside::errors::Error;
use ringside::language::Language;
use ringside::store::Database;

fn score(mantissa: i128, scale: u32) -> Decimal {
    Decimal { mantissa, scale }
}

fn rating(match_id: i32, lang: Language, user: &str, sc: Decimal, when: i64) -> NewRating {
    NewRating {
        match_id,
        language_code: lang,
        username: user.to_string(),
        score: sc,
        publication_date: when,
        opinion: None,
    }
}

/// Two events: event 1 (two matches) is newer than event 2 (one match).
fn seeded() -> Database {
    let mut db = Database::new();
    db.add_event(Event::new(1, "Grand Prix Final".to_string(), "NJP".to_string(), 19_700));
    db.add_event(Event::new(2, "Winter Clash".to_string(), "AEW".to_string(), 19_650));
    db.add_match(Match::new(1, 1, "Ishii vs Shibata".to_string()));
    db.add_match(Match::new(2, 1, "Okada vs Omega".to_string()));
    db.add_match(Match::new(3, 2, "Danielson vs Garcia".to_string()));
    db.add_match_desc(MatchDesc::new(
        1,
        1,
        "Un combat dur".to_string(),
        Language::French,
    ));
    db.add_match_desc(MatchDesc::new(2, 1, "A hard-hitting bout".to_string(), Language::English));
    db
}

#[test]
fn missing_rows_are_reported_as_missing_resources() {
    let db = seeded();
    assert!(matches!(db.get_event_by(99), Err(Error::ResourceDoesNotExists)));
    assert!(matches!(db.get_match_by(99), Err(Error::ResourceDoesNotExists)));
    assert!(matches!(
        db.get_match_description(3, Language::French),
        Err(Error::ResourceDoesNotExists)
    ));
}

#[test]
fn lookups_find_the_stored_row() {
    let db = seeded();
    let event = db.get_event_by(1).unwrap();
    assert_eq!(event.id(), 1);
    assert_eq!(event.name(), "Grand Prix Final");
    assert_eq!(event.promotion(), "NJP");
    assert_eq!(event.date(), 19_700);
    let m = db.get_match_by(2).unwrap();
    assert_eq!(m.event_id(), 1);
    assert_eq!(m.workers(), "Okada vs Omega");
    let desc = db.get_match_description(1, Language::English).unwrap();
    assert_eq!(desc.description(), "A hard-hitting bout");
    assert_eq!(desc.language_code(), Language::English);
}

#[test]
fn the_card_lists_every_match_of_the_event() {
    let db = seeded();
    let card = db.get_card(1).unwrap();
    assert_eq!(card.len(), 2);
    assert_eq!(card[0].id(), 1);
    assert_eq!(card[1].id(), 2);
    assert!(db.get_card(99).unwrap().is_empty());
}

#[test]
fn events_are_listed_newest_first_page_by_page() {
    let mut db = seeded();
    db.add_event(Event::new(3, "Spring Slam".to_string(), "NJP".to_string(), 19_800));
    db.add_event(Event::new(4, "Autumn Gold".to_string(), "AEW".to_string(), 19_600));
    db.add_event(Event::new(5, "Midsummer Duel".to_string(), "NJP".to_string(), 19_675));
    let page1 = db.get_events(1).unwrap();
    assert_eq!(page1.total_pages, 2);
    let ids: Vec<i32> = page1.items.iter().map(|e| e.id()).collect();
    assert_eq!(ids, vec![3, 1, 5, 2]);
    let page2 = db.get_events(2).unwrap();
    assert_eq!(page2.total_pages, 2);
    let ids2: Vec<i32> = page2.items.iter().map(|e| e.id()).collect();
    assert_eq!(ids2, vec![4]);
    assert!(db.get_events(3).unwrap().items.is_empty());
    assert!(matches!(db.get_events(0), Err(Error::InvalidPage)));
}

#[test]
fn duplicate_rating_is_rejected_the_second_time() {
    let mut db = seeded();
    let first = db.new_rating(rating(7, Language::English, "alice", score(40, 1), 100));
    assert_eq!(first, Ok(()));
    let second = db.new_rating(rating(7, Language::French, "alice", score(35, 1), 200));
    assert_eq!(second, Err(Error::UsernameAlreadyUsed));
    let other_match = db.new_rating(rating(8, Language::English, "alice", score(40, 1), 300));
    assert_eq!(other_match, Ok(()));
    let other_user = db.new_rating(rating(7, Language::English, "bob", score(30, 1), 400));
    assert_eq!(other_user, Ok(()));
}

#[test]
fn average_of_a_match_without_ratings_is_absent_not_zero() {
    let db = seeded();
    assert_eq!(db.get_average_rating_for_match(1), Ok(None));
    assert_eq!(db.get_average_rating_for_event(1), Ok(None));
}

#[test]
fn average_is_the_exact_decimal_mean() {
    let mut db = seeded();
    db.new_rating(rating(1, Language::English, "alice", score(35, 1), 100)).unwrap();
    db.new_rating(rating(1, Language::French, "bob", score(40, 1), 200)).unwrap();
    db.new_rating(rating(1, Language::English, "carol", score(45, 1), 300)).unwrap();
    let avg = db.get_average_rating_for_match(1).unwrap().unwrap();
    assert!(avg.eq_value(&score(40, 1)), "mean of 3.5, 4.0 and 4.5 must be exactly 4.0");
    assert_eq!(avg.mantissa, 4_000_000_000_000);
    assert_eq!(avg.scale, 12);
}

#[test]
fn average_for_an_event_spans_all_its_matches() {
    let mut db = seeded();
    db.new_rating(rating(1, Language::English, "alice", score(3, 0), 100)).unwrap();
    db.new_rating(rating(2, Language::French, "bob", score(5, 0), 200)).unwrap();
    db.new_rating(rating(3, Language::English, "carol", score(1, 0), 300)).unwrap();
    let avg = db.get_average_rating_for_event(1).unwrap().unwrap();
    assert!(avg.eq_value(&score(4, 0)));
    let lone = db.get_average_rating_for_event(2).unwrap().unwrap();
    assert!(lone.eq_value(&score(1, 0)));
}

#[test]
fn a_non_terminating_mean_is_truncated_with_guard_digits() {
    let mut db = seeded();
    db.new_rating(rating(1, Language::English, "alice", score(1, 0), 100)).unwrap();
    db.new_rating(rating(1, Language::English, "bob", score(1, 0), 200)).unwrap();
    db.new_rating(rating(1, Language::English, "carol", score(2, 0), 300)).unwrap();
    let avg = db.get_average_rating_for_match(1).unwrap().unwrap();
    // 4 / 3 carried to twelve fractional digits, truncated
    assert_eq!(avg.mantissa, 1_333_333_333_333);
    assert_eq!(avg.scale, 12);
}

#[test]
fn ratings_are_listed_per_language_newest_first() {
    let mut db = seeded();
    db.new_rating(rating(1, Language::English, "alice", score(40, 1), 100)).unwrap();
    db.new_rating(rating(1, Language::French, "bob", score(35, 1), 300)).unwrap();
    db.new_rating(rating(2, Language::English, "carol", score(45, 1), 200)).unwrap();
    let eng = db.get_ratings(1, Language::English).unwrap();
    let users: Vec<&str> = eng.items.iter().map(|r| r.username()).collect();
    assert_eq!(users, vec!["carol", "alice"]);
    let fre = db.get_ratings(1, Language::French).unwrap();
    assert_eq!(fre.items.len(), 1);
    assert_eq!(fre.items[0].username(), "bob");
    assert_eq!(fre.total_pages, 1);
}

#[test]
fn match_ratings_are_scoped_to_the_match_and_language() {
    let mut db = seeded();
    db.new_rating(rating(1, Language::English, "alice", score(40, 1), 100)).unwrap();
    db.new_rating(rating(1, Language::French, "bob", score(35, 1), 200)).unwrap();
    db.new_rating(rating(2, Language::English, "carol", score(45, 1), 300)).unwrap();
    let listed = db.get_ratings_for_match(1, 1, Language::English).unwrap();
    assert_eq!(listed.items.len(), 1);
    assert_eq!(listed.items[0].username(), "alice");
    assert_eq!(listed.items[0].score(), score(40, 1));
}

#[test]
fn event_ratings_are_the_union_of_its_matches_ratings_newest_first() {
    let mut db = seeded();
    db.new_rating(rating(1, Language::English, "alice", score(40, 1), 100)).unwrap();
    db.new_rating(rating(2, Language::English, "bob", score(30, 1), 300)).unwrap();
    db.new_rating(rating(2, Language::French, "carol", score(20, 1), 250)).unwrap();
    db.new_rating(rating(3, Language::English, "dave", score(10, 1), 400)).unwrap();
    let event_page = db.get_ratings_for_event(1, 1, Language::English).unwrap();
    let listed: Vec<&str> = event_page.items.iter().map(|r| r.username()).collect();
    assert_eq!(listed, vec!["bob", "alice"]);
    // the same rows, match by match
    let mut union: Vec<String> = Vec::new();
    for m in db.get_card(1).unwrap() {
        for r in db.get_ratings_for_match(m.id(), 1, Language::English).unwrap().items {
            union.push(r.username().to_string());
        }
    }
    union.sort();
    let mut from_event: Vec<String> = listed.iter().map(|u| u.to_string()).collect();
    from_event.sort();
    assert_eq!(from_event, union);
}

#[test]
fn rating_pages_split_at_four_rows() {
    let mut db = seeded();
    for (i, user) in ["a", "b", "c", "d", "e", "f"].iter().enumerate() {
        db.new_rating(rating(1, Language::English, user, score(30, 1), 100 + i as i64)).unwrap();
    }
    let page1 = db.get_ratings_for_match(1, 1, Language::English).unwrap();
    assert_eq!(page1.total_pages, 2);
    assert_eq!(page1.items.len(), 4);
    assert_eq!(page1.items[0].username(), "f");
    let page2 = db.get_ratings_for_match(1, 2, Language::English).unwrap();
    assert_eq!(page2.items.len(), 2);
    assert_eq!(page2.items[1].username(), "a");
    let beyond = db.get_ratings_for_match(1, 9, Language::English).unwrap();
    assert!(beyond.items.is_empty());
    assert_eq!(beyond.total_pages, 2);
}

#[test]
fn accepted_ratings_receive_distinct_identifiers() {
    let mut db = seeded();
    db.new_rating(rating(1, Language::English, "alice", score(40, 1), 100)).unwrap();
    db.new_rating(rating(2, Language::English, "bob", score(30, 1), 200)).unwrap();
    let all = db.get_ratings(1, Language::English).unwrap().items;
    assert_eq!(all.len(), 2);
    assert_ne!(all[0].id(), all[1].id());
}

#[test]
fn a_request_is_stamped_at_the_boundary_not_by_the_client() {
    let request = RequestRating {
        match_id: 1,
        language_code: Language::English,
        username: "alice".to_string(),
        score: score(40, 1),
        opinion: Some("A classic".to_string()),
    };
    let stamped = request.into_new_rating(12_345);
    assert_eq!(stamped.publication_date, 12_345);
    assert_eq!(stamped.match_id, 1);
    assert_eq!(stamped.opinion, Some("A classic".to_string()));
    let mut db = seeded();
    db.new_rating(stamped).unwrap();
    let listed = db.get_ratings_for_match(1, 1, Language::English).unwrap().items;
    assert_eq!(listed[0].publication_date(), 12_345);
    assert_eq!(listed[0].opinion(), &Some("A classic".to_string()));
}
