use monument::bell::{Bell, Stage};
use monument::mask::Mask;
use monument::music::{Pattern, Stroke, StrokeSet};
use monument::params::tenors_together_non_fixed_bells;
use monument::row::RowBuf;
use monument::utils::MusicBreakdown;
use monument::music::{MusicType, OptRange};

#[test]
fn row_parse_and_mul() {
    let a = RowBuf::parse("2143").unwrap();
    let b = RowBuf::parse("3412").unwrap();
    // (a.mul(b))[i] = a[b[i]]
    let ab = a.mul(&b);
    assert_eq!(ab.bells, vec![4, 3, 2, 1].iter().map(|x| x - 1).collect::<Vec<u8>>());
    assert!(RowBuf::parse("1123").is_none());
    assert!(RowBuf::parse("125").is_none());
}

#[test]
fn row_inverse_cancels() {
    let a = RowBuf::parse("35142").unwrap();
    let inv = a.inv();
    let left = inv.mul(&a);
    let right = a.mul(&inv);
    assert!(left.is_rounds());
    assert!(right.is_rounds());
}

#[test]
fn rounds_is_identity() {
    let rounds = RowBuf::rounds(Stage::new(6));
    assert!(rounds.is_rounds());
    let a = RowBuf::parse("214365").unwrap();
    assert_eq!(a.mul(&rounds).bells, a.bells);
    assert_eq!(rounds.mul(&a).bells, a.bells);
}

#[test]
fn bell_names_round_trip() {
    for (i, c) in "1234567890ET".chars().enumerate() {
        let b = Bell::from_name(c).unwrap();
        assert_eq!(b.index(), i);
        assert_eq!(b.name(), c);
    }
    assert!(Bell::from_name('q').is_none());
    assert_eq!(Bell::from_number(3).unwrap().index(), 2);
}

#[test]
fn tenors_together_fixed_bells() {
    let bells = tenors_together_non_fixed_bells(Stage::new(8));
    let numbers: Vec<usize> = bells.iter().map(|b| b.number()).collect();
    assert_eq!(numbers, vec![2, 3, 4, 5, 6]);
    let bells6 = tenors_together_non_fixed_bells(Stage::new(6));
    let numbers6: Vec<usize> = bells6.iter().map(|b| b.number()).collect();
    assert_eq!(numbers6, vec![2, 3, 4, 5]);
}

#[test]
fn mask_set_bell_and_fix() {
    let mut mask = Mask::empty(Stage::new(6));
    let b3 = Bell::from_number(3).unwrap();
    assert!(mask.fix(b3).is_ok());
    // Fixing the same bell in the same place is fine; elsewhere is not.
    assert!(mask.fix(b3).is_ok());
    assert!(mask.set_bell(b3, 0).is_err());
    assert_eq!(mask.place_of(b3), Some(2));
}

#[test]
fn mask_compatibility_and_intersection() {
    let a = Mask::parse("1xx4xx");
    let b = Mask::parse("x2x4xx");
    assert!(a.is_compatible_with(&b));
    let both = a.intersect(&b).unwrap();
    assert_eq!(both, Mask::parse("12x4xx"));
    // A bell fixed in two different places is incompatible.
    let c = Mask::parse("x1xxxx");
    let d = Mask::parse("1xxxxx");
    assert!(!c.is_compatible_with(&d));
    assert!(c.intersect(&d).is_none());
    // Subset relations.
    assert!(Mask::parse("xx3456").is_subset_of(&Mask::parse("xxxx56")));
    assert!(!Mask::parse("xxxx56").is_subset_of(&Mask::parse("xx3456")));
    assert!(Mask::parse("xx3456").is_strict_subset_of(&Mask::parse("xxxx56")));
}

#[test]
fn mask_as_row() {
    assert_eq!(
        Mask::parse("2143").as_row().unwrap().bells,
        RowBuf::parse("2143").unwrap().bells
    );
    assert!(Mask::parse("21x3").as_row().is_none());
}

#[test]
fn pattern_star_matching() {
    let stage = Stage::new(6);
    let p = Pattern::parse("*65", stage).unwrap();
    assert!(p.matches(&RowBuf::parse("123465").unwrap()));
    assert!(!p.matches(&RowBuf::parse("123456").unwrap()));
    let q = Pattern::parse("5*6", stage).unwrap();
    assert!(q.matches(&RowBuf::parse("521436").unwrap()));
    assert!(!q.matches(&RowBuf::parse("621435").unwrap()));
}

#[test]
fn music_breakdown_counts_and_score() {
    let stage = Stage::new(6);
    // Two patterns: rows ending 65, rows starting 1.
    let ty = MusicType {
        patterns: vec![
            Pattern::parse("*65", stage).unwrap(),
            Pattern::parse("1*", stage).unwrap(),
        ],
        weight: 10,
        count_range: OptRange { min: None, max: None },
        strokes: StrokeSet::Both,
    };
    let rows = vec![
        RowBuf::parse("123465").unwrap(),
        RowBuf::parse("214365").unwrap(),
        RowBuf::parse("123456").unwrap(),
    ];
    let head = RowBuf::rounds(stage);
    let b = MusicBreakdown::from_rows(&rows, &head, &vec![ty], Stroke::Hand);
    // Hits: row 1 matches both patterns, row 2 matches "*65", row 3 matches
    // "1*": four in all.
    assert_eq!(b.counts, vec![4]);
    assert_eq!(b.score, 40);
}

#[test]
fn music_type_score_weights_hits() {
    let stage = Stage::new(6);
    let ty = MusicType {
        patterns: vec![Pattern::parse("*65", stage).unwrap()],
        weight: -7,
        count_range: OptRange { min: None, max: None },
        strokes: StrokeSet::Both,
    };
    let rows = vec![
        RowBuf::parse("123465").unwrap(),
        RowBuf::parse("214365").unwrap(),
        RowBuf::parse("123456").unwrap(),
    ];
    // Two hits at minus seven points each.
    assert_eq!(ty.score(&rows), -14);
}

#[test]
fn breakdown_saturating_subtraction() {
    let a = MusicBreakdown { score: 5, counts: vec![3, 1] };
    let b = MusicBreakdown { score: 9, counts: vec![1, 4] };
    let d = a.saturating_sub(&b);
    assert_eq!(d.score, -4);
    assert_eq!(d.counts, vec![2, 0]);
}
