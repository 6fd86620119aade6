use problems::almanac::{
    calculate_almanac, calculate_almanac_range, try_calculate_almanac, try_calculate_almanac_range,
    AlmanacEntry, AlmanacMap, ParseAlmanacEntryError, Range,
};

#[test]
fn test_range_intersect() {
    // do intersect
    assert!(Range(1, 3).intersect(&Range(2, 5)));
    assert!(Range(1, 5).intersect(&Range(2, 3)));
    assert!(Range(3, 5).intersect(&Range(2, 3)));
    // do not intersect
    assert!(!Range(1, 2).intersect(&Range(3, 4)));
    assert!(!Range(3, 5).intersect(&Range(1, 2)));
}

#[test]
fn test_almanac_entry_from_str() {
    assert_eq!(
        AlmanacEntry::from_str("10 20 30"),
        Ok(AlmanacEntry {
            src: Range(20, 49),
            offset: -10
        })
    )
}

#[test]
fn test_almanac_map_from_str() {
    let data = "50 98 2\n52 50 10";
    let almanac = AlmanacMap::from_str(data).unwrap();

    assert_eq!(
        vec![
            AlmanacEntry {
                src: Range(50, 59),
                offset: 2
            },
            AlmanacEntry {
                src: Range(98, 99),
                offset: 50 - 98
            }
        ],
        almanac.ranges
    )
}

#[test]
fn test_almanac_map_get() {
    let data = "50 98 2\n52 50 42";
    let map = AlmanacMap::from_str(data).unwrap();

    // no extra data
    assert_eq!(map.get(1), 1);
    // first range
    assert_eq!(map.get(98), 50);
    assert_eq!(map.get(99), 51);
    // second range
    assert_eq!(map.get(50), 52);
    assert_eq!(map.get(51), 53);
    assert_eq!(map.get(52), 54);
    assert_eq!(map.get(53), 55);
    assert_eq!(map.get(54), 56);
    assert_eq!(map.get(82), 84);

    let map = AlmanacMap::from_str(LIGHT_TO_TEMPERATURE).unwrap();

    assert_eq!(map.get(77), 45);
}

#[test]
fn test_almanac_map_get_ranges() {
    let data = "50 98 2\n52 50 10";
    // [50 - 59] -> [52 - 61]
    // [60 - 97] -> [62 - 97]
    // [98 - 99] -> [50 - 51]
    let map = AlmanacMap::from_str(data).unwrap();

    assert_eq!(map.get_ranges(&[Range(52, 54)]), vec![Range(54, 56)]);

    // [50 - 59] [60 - 97] [98 - 99]
    //    [52 - 72]
    //    [52 - 59] [60 - 72]
    //    [54 - 61] [60 - 72]
    assert_eq!(map.get_ranges(&[Range(52, 72)]), vec![Range(54, 72)]);

    // [50 - 59] [60 - 97] [98 - 99]
    // [50 - 99]
    assert_eq!(map.get_ranges(&[Range(50, 99)]), vec![Range(50, 97)]);

    let map = AlmanacMap::from_str(SOIL_TO_FERTILIZER).unwrap();

    assert_eq!(map.get_ranges(&[Range(81, 94)]), vec![Range(81, 94)]);
}

#[test]
fn test_calculate_almanac() {
    let location = calculate_almanac(
        TEST_SEEDS,
        SEED_TO_SOIL,
        SOIL_TO_FERTILIZER,
        FERTILIZER_TO_WATER,
        WATER_TO_LIGHT,
        LIGHT_TO_TEMPERATURE,
        TEMPERATURE_TO_HUMIDITY,
        HUMIDITY_TO_LOCATION,
    )
    .unwrap();

    assert_eq!(location, 35);
}

#[test]
fn test_calculate_almanac_range() {
    let location = calculate_almanac_range(
        TEST_SEEDS_RANGE,
        SEED_TO_SOIL,
        SOIL_TO_FERTILIZER,
        FERTILIZER_TO_WATER,
        WATER_TO_LIGHT,
        LIGHT_TO_TEMPERATURE,
        TEMPERATURE_TO_HUMIDITY,
        HUMIDITY_TO_LOCATION,
    )
    .unwrap();

    assert_eq!(location, 46);
}

#[test]
fn seed_ranges_of_one_match_seeds() {
    let single: &[(i64, i64)] = &[(79, 1), (14, 1), (55, 1), (13, 1)];
    let by_range = calculate_almanac_range(
        single,
        SEED_TO_SOIL,
        SOIL_TO_FERTILIZER,
        FERTILIZER_TO_WATER,
        WATER_TO_LIGHT,
        LIGHT_TO_TEMPERATURE,
        TEMPERATURE_TO_HUMIDITY,
        HUMIDITY_TO_LOCATION,
    );
    assert_eq!(by_range, Ok(35));
}

#[test]
fn range_methods() {
    assert!(Range(1, 3).includes(1));
    assert!(Range(1, 3).includes(3));
    assert!(!Range(1, 3).includes(4));
    assert!(Range(1, 9).includes_range(&Range(2, 9)));
    assert!(!Range(1, 9).includes_range(&Range(0, 9)));
    assert_eq!(Range(1, 3).offset(-5), Range(-4, -2));
    // intersect looks at the ends of the other range only
    assert!(!Range(2, 3).intersect(&Range(1, 5)));
    let mut r = Range(5, 7);
    r.expand(&Range(6, 10));
    assert_eq!(r, Range(5, 10));
    r.expand(&Range(1, 2));
    assert_eq!(r, Range(1, 10));
}

#[test]
fn entry_lines_that_are_no_entries() {
    assert_eq!(AlmanacEntry::from_str("10 20"), Err(ParseAlmanacEntryError("10 20".to_string())));
    assert_eq!(AlmanacEntry::from_str("10 x 30"), Err(ParseAlmanacEntryError("10 x 30".to_string())));
    assert_eq!(AlmanacEntry::from_str("10  20 30"), Err(ParseAlmanacEntryError("10  20 30".to_string())));
    // numbers past the third are read but not used
    assert_eq!(
        AlmanacEntry::from_str("10 20 30 40"),
        Ok(AlmanacEntry { src: Range(20, 49), offset: -10 })
    );
    assert!(AlmanacMap::from_str("  1 2  \n3 4 5").is_err());
    assert_eq!(
        AlmanacMap::from_str("3 4 5\n  1 2  ").err(),
        Some(ParseAlmanacEntryError("1 2".to_string()))
    );
    assert_eq!(AlmanacMap::from_str("").unwrap().ranges, vec![]);
}

#[test]
fn get_ranges_of_several_ranges() {
    let map = AlmanacMap::from_str("50 98 2\n52 50 10").unwrap();
    assert_eq!(
        map.get_ranges(&[Range(1, 3), Range(98, 99)]),
        vec![Range(1, 3), Range(50, 51)]
    );
    // touching pieces are joined, an empty range adds nothing
    assert_eq!(map.get_ranges(&[Range(60, 61), Range(59, 59), Range(9, 8)]), vec![Range(60, 61)]);
    assert_eq!(map.get_ranges(&[]), vec![]);
}

#[test]
fn almanac_work_that_does_not_go_through() {
    // no seeds
    assert_eq!(
        try_calculate_almanac(&[], "1 2 3", "", "", "", "", "", ""),
        None
    );
    // an offset that leaves i64
    assert_eq!(
        try_calculate_almanac(&[1], "0 -9223372036854775808 1", "", "", "", "", "", ""),
        None
    );
    // a line that is no entry
    assert_eq!(
        try_calculate_almanac(&[1], "1 2 3", "", "x", "", "", "", ""),
        Some(Err(ParseAlmanacEntryError("x".to_string())))
    );
    assert_eq!(
        try_calculate_almanac(&[1, 2], "7 1 1", "", "", "", "", "", ""),
        Some(Ok(2))
    );
    // a seed range of no seeds
    assert_eq!(
        try_calculate_almanac_range(&[(1, 0)], "", "", "", "", "", "", ""),
        None
    );
    assert_eq!(
        try_calculate_almanac_range(&[(5, 3)], "0 6 1", "", "", "", "", "", ""),
        Some(Ok(0))
    );
}

#[test]
fn images_past_the_ends_of_i64() {
    let map = AlmanacMap::from_str("9223372036854775807 0 10").unwrap();
    assert_eq!(map.get_checked(0), Some(i64::MAX));
    assert_eq!(map.get_checked(1), None);
    assert_eq!(map.get_checked(10), Some(10));
    assert_eq!(map.image_ranges(&[Range(0, 0)]), Some(vec![Range(i64::MAX, i64::MAX)]));
    assert_eq!(map.image_ranges(&[Range(0, 1)]), None);
    assert_eq!(map.image_ranges(&[Range(10, 12)]), Some(vec![Range(10, 12)]));
}

const TEST_SEEDS: &[i64] = &[79, 14, 55, 13];
const TEST_SEEDS_RANGE: &[(i64, i64)] = &[(79, 14), (55, 13)];

const SEED_TO_SOIL: &str = r"
    50 98 2
    52 50 48";

const SOIL_TO_FERTILIZER: &str = r"
    0 15 37
    37 52 2
    39 0 15";

const FERTILIZER_TO_WATER: &str = r"
    49 53 8
    0 11 42
    42 0 7
    57 7 4";

const WATER_TO_LIGHT: &str = r"
    88 18 7
    18 25 70";

const LIGHT_TO_TEMPERATURE: &str = r"
    45 77 23
    81 45 19
    68 64 13"; // [64 - 77) -> [68 - 81)

const TEMPERATURE_TO_HUMIDITY: &str = r"
    0 69 1
    1 0 69";

const HUMIDITY_TO_LOCATION: &str = r"
    60 56 37
    56 93 4";
