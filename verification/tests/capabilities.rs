use lib::capabilities::{CapabilitySpace, Occupied};

#[test]
fn minted_numbers_follow_the_largest() {
    let mut space: CapabilitySpace<&str> = CapabilitySpace::new();
    assert_eq!(space.mint("first"), 0);
    assert_eq!(space.mint_with_id(7, "seventh"), Ok(()));
    assert_eq!(space.mint_with_id(7, "again"), Err(Occupied));
    assert_eq!(space.mint("next"), 8);
    assert_eq!(space.mint_with(|c| if c == 9 { "ninth" } else { "other" }), 9);
    assert_eq!(space.resolve(7), Some(&"seventh"));
    assert_eq!(space.resolve(9), Some(&"ninth"));
    assert_eq!(space.resolve(3), None);
    let all: Vec<u64> = space.all().iter().map(|(k, _)| *k).collect();
    assert_eq!(all, vec![0, 7, 8, 9]);
    assert_eq!(space.remove(8), Some("next"));
    assert_eq!(space.remove(8), None);
    assert_eq!(space.mint("last"), 10);
}
