use sp_state::generation::{distinct_token, first_generation, next_generation};
use sp_state::{SPPath, SPState, ToSPValue};

#[test]
fn distinct_token_keeps_a_different_candidate() {
    assert_eq!(distinct_token(1, 2), 2);
    assert_eq!(distinct_token(0, u128::MAX), u128::MAX);
}

#[test]
fn distinct_token_flips_the_last_bit_of_an_equal_candidate() {
    assert_eq!(distinct_token(6, 6), 7);
    assert_eq!(distinct_token(7, 7), 6);
    assert_eq!(distinct_token(0, 0), 1);
    assert_eq!(distinct_token(u128::MAX, u128::MAX), u128::MAX - 1);
}

#[test]
fn generations_are_random_uuids() {
    for _ in 0..20 {
        let id = uuid::Uuid::from_u128(first_generation());
        assert_eq!(id.get_version_num(), 4);
        assert_eq!(id.get_variant(), uuid::Variant::RFC4122);
    }
    let current = first_generation();
    for _ in 0..20 {
        let next = next_generation(current);
        assert_ne!(next, current);
        assert_eq!(uuid::Uuid::from_u128(next).get_version_num(), 4);
    }
    let flipped = uuid::Uuid::from_u128(distinct_token(current, current));
    assert_eq!(flipped.get_version_num(), 4);
    assert_eq!(flipped.get_variant(), uuid::Variant::RFC4122);
}

#[test]
fn generations_are_drawn_not_kept() {
    let first = first_generation();
    let mut differs = false;
    for _ in 0..8 {
        differs = differs || first_generation() != first;
    }
    assert!(differs);
}

#[test]
fn state_generation_follows_the_set_of_paths() {
    let mut s = SPState::new();
    assert_eq!(uuid::Uuid::from_u128(s.id()).get_version_num(), 4);
    let mut seen = vec![s.id()];
    for name in ["a", "b", "c", "d"] {
        s.add_variable(SPPath::from_slice(&[name]), 0.to_spvalue());
        assert_ne!(s.id(), *seen.last().unwrap());
        assert_eq!(uuid::Uuid::from_u128(s.id()).get_version_num(), 4);
        seen.push(s.id());
        s.add_variable(SPPath::from_slice(&[name]), 1.to_spvalue());
        assert_eq!(s.id(), *seen.last().unwrap());
    }
}
