use wagmi_staking::decimal::{Decimal, DECIMAL_FRACTIONAL};
use wagmi_staking::error::ContractError;
use wagmi_staking::querier::{
    accumulate_token_page, is_common_kongz, is_common_monkeez, KongzExtension, KongzMetaData,
};
use wagmi_staking::selection::get_selected_random;

fn ids(range: std::ops::RangeInclusive<u64>) -> Vec<String> {
    range.map(|i| i.to_string()).collect()
}

#[test]
fn test_selection_walk() {
    let inv: Vec<String> =
        ["a", "b", "c", "d", "e"].iter().map(|s| s.to_string()).collect();
    // time 7: picks 7 % 5 = index 2, then 14 % 4 = index 2 of the rest,
    // then 21 % 3 = index 0.
    let sel = get_selected_random(inv, 3, 7).unwrap();
    assert_eq!(sel, vec!["c".to_string(), "d".to_string(), "a".to_string()]);
}

#[test]
fn test_selection_no_duplicates() {
    let inv = ids(1..=30);
    let sel = get_selected_random(inv.clone(), 30, 1571797419).unwrap();
    assert_eq!(sel.len(), 30);
    // Selection without replacement: every identifier exactly once.
    let mut sorted: Vec<u64> = sel.iter().map(|s| s.parse().unwrap()).collect();
    sorted.sort_unstable();
    assert_eq!(sorted, (1..=30).collect::<Vec<u64>>());
}

#[test]
fn test_selection_count_exceeds_inventory() {
    let err = get_selected_random(ids(1..=3), 4, 7).unwrap_err();
    assert_eq!(err, ContractError::InvalidArgument);
}

#[test]
fn test_selection_index_overflow() {
    let err = get_selected_random(ids(1..=3), 2, u64::MAX).unwrap_err();
    assert_eq!(err, ContractError::ArithmeticOverflow);
}

#[test]
fn test_selection_empty() {
    let sel = get_selected_random(vec![], 0, 7).unwrap();
    assert!(sel.is_empty());
}

#[test]
fn test_pagination_short_page() {
    let mut acc: Vec<String> = vec![];
    let next = accumulate_token_page(&mut acc, &ids(1..=7));
    assert_eq!(next, None);
    assert_eq!(acc, ids(1..=7));
}

#[test]
fn test_pagination_empty_inventory() {
    let mut acc: Vec<String> = vec![];
    let next = accumulate_token_page(&mut acc, &vec![]);
    assert_eq!(next, None);
    assert!(acc.is_empty());
}

/// An inventory that is an exact multiple of the page size needs one extra
/// empty terminal page to confirm completion.
#[test]
fn test_pagination_exact_multiple() {
    let mut acc: Vec<String> = vec![];
    let next = accumulate_token_page(&mut acc, &ids(1..=30));
    assert_eq!(next, Some("30".to_string()));
    let next = accumulate_token_page(&mut acc, &ids(31..=60));
    assert_eq!(next, Some("60".to_string()));
    let next = accumulate_token_page(&mut acc, &vec![]);
    assert_eq!(next, None);
    assert_eq!(acc, ids(1..=60));
}

/// The full paged walk over the three-page inventory the registry serves.
#[test]
fn test_pagination_walk() {
    let pages = |start_after: Option<String>| -> Vec<String> {
        match start_after.as_deref() {
            None => ids(1..=30),
            Some("30") => ids(31..=60),
            Some("60") => ids(61..=90),
            _ => vec![],
        }
    };
    let mut acc: Vec<String> = vec![];
    let mut start_after: Option<String> = None;
    loop {
        let page = pages(start_after);
        start_after = accumulate_token_page(&mut acc, &page);
        if start_after.is_none() {
            break;
        }
    }
    assert_eq!(acc, ids(1..=90));
}

#[test]
fn test_classify_monkeez() {
    let legendary =
        "[{\"name\":\"background\",\"value\":\"dracula\",\"rarity_name\":\"legendary\"}]"
            .to_string();
    assert!(!is_common_monkeez(&legendary));
    let common = "[{\"name\":\"background\",\"value\":\"dracula\",\"rarity_name\":\"common\"}]"
        .to_string();
    assert!(is_common_monkeez(&common));
    assert!(is_common_monkeez(&"".to_string()));
}

fn kongz_with_rarity(value: &str) -> KongzExtension {
    KongzExtension {
        image: "KONGZ_IMG1".to_string(),
        image_data: None,
        external_url: None,
        description: "KONG_DES1".to_string(),
        name: "#1".to_string(),
        attributes: vec![KongzMetaData {
            display_type: None,
            trait_type: "Rarity".to_string(),
            value: value.to_string(),
        }],
        background_color: None,
        animation_url: None,
        youtube_url: None,
    }
}

#[test]
fn test_classify_kongz() {
    assert!(is_common_kongz(&kongz_with_rarity("Common")));
    assert!(!is_common_kongz(&kongz_with_rarity("Legendary")));
    let mut no_rarity = kongz_with_rarity("Common");
    no_rarity.attributes.clear();
    assert!(!is_common_kongz(&no_rarity));
}

#[test]
fn test_decimal_arithmetic() {
    let d = Decimal::from_ratio(1382400, 438912);
    assert_eq!(d.atomics, 3149606299212598425);
    assert_eq!(d.floor_units(), 3);
    assert_eq!(d.fraction_atomics(), 149606299212598425);
    assert!(Decimal::zero().is_zero());
    assert_eq!(Decimal::one().atomics, DECIMAL_FRACTIONAL);
    let sum = d.checked_add(Decimal::one()).unwrap();
    assert_eq!(sum.atomics, 4149606299212598425);
    assert!(Decimal { atomics: u128::MAX }.checked_add(Decimal::one()).is_none());
    assert_eq!(sum.sub(d).atomics, DECIMAL_FRACTIONAL);
}
