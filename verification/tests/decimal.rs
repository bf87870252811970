use ringside::decimal::Decimal;
use ringside::entities::NewRating;
use ringside::language::Language;
use ringside::store::Database;

fn dec(mantissa: i128, scale: u32) -> Decimal {
    Decimal { mantissa, scale }
}

#[test]
fn value_equality_ignores_trailing_zeros() {
    assert!(dec(4, 0).eq_value(&dec(40, 1)));
    assert!(dec(40, 1).eq_value(&dec(400, 2)));
    assert!(dec(0, 0).eq_value(&dec(0, 5)));
    assert!(dec(-25, 1).eq_value(&dec(-250, 2)));
    assert!(!dec(4, 0).eq_value(&dec(41, 1)));
    assert!(!dec(4, 1).eq_value(&dec(4, 0)));
}

#[test]
fn a_negative_mean_is_truncated_toward_zero() {
    let mut db = Database::new();
    for (user, mantissa, when) in [("alice", -1i128, 100i64), ("bob", -1, 200), ("carol", -2, 300)]
    {
        db.new_rating(NewRating {
            match_id: 1,
            language_code: Language::English,
            username: user.to_string(),
            score: dec(mantissa, 0),
            publication_date: when,
            opinion: None,
        })
        .unwrap();
    }
    let avg = db.get_average_rating_for_match(1).unwrap().unwrap();
    assert_eq!(avg.mantissa, -1_333_333_333_333);
    assert_eq!(avg.scale, 12);
}

#[test]
fn mixed_scales_are_aligned_before_summing() {
    let mut db = Database::new();
    for (user, score, when) in [("alice", dec(35, 1), 100i64), ("bob", dec(4, 0), 200), (
        "carol",
        dec(4_500_000, 6),
        300,
    )] {
        db.new_rating(NewRating {
            match_id: 1,
            language_code: Language::French,
            username: user.to_string(),
            score,
            publication_date: when,
            opinion: None,
        })
        .unwrap();
    }
    let avg = db.get_average_rating_for_match(1).unwrap().unwrap();
    assert!(avg.eq_value(&dec(4, 0)));
}
