use pairlang::Error;
use pairlang::PairingMap;

fn chars(s: &str) -> Vec<char> {
    s.chars().collect()
}

#[test]
fn balanced_brackets_pair_up_bidirectionally() {
    let pm = PairingMap::build(&chars("[[]]")).unwrap();
    assert_eq!(pm.get_by_left(0), Some(3));
    assert_eq!(pm.get_by_left(1), Some(2));
    assert_eq!(pm.get_by_right(3), Some(0));
    assert_eq!(pm.get_by_right(2), Some(1));
    // the round trip leads back to where it started
    assert_eq!(pm.get_by_left(pm.get_by_right(3).unwrap()), Some(3));
    assert_eq!(pm.get_by_left(pm.get_by_right(2).unwrap()), Some(2));
    assert_eq!(pm.get_by_left(2), None);
    assert_eq!(pm.get_by_right(0), None);
}

#[test]
fn all_four_families_pair_independently() {
    //            0123456789
    let pm = PairingMap::build(&chars("^ab^\"cd\"%e%0f0[]")).unwrap();
    assert_eq!(pm.get_by_left(0), Some(3));
    assert_eq!(pm.get_by_left(4), Some(7));
    assert_eq!(pm.get_by_left(8), Some(10));
    assert_eq!(pm.get_by_left(11), Some(13));
    assert_eq!(pm.get_by_left(14), Some(15));
}

#[test]
fn brackets_inside_comment_are_not_special() {
    let pm = PairingMap::build(&chars("^]]^")).unwrap();
    assert_eq!(pm.get_by_left(0), Some(3));
    assert_eq!(pm.get_by_right(1), None);
    assert_eq!(pm.get_by_right(2), None);
}

#[test]
fn quote_inside_comment_is_not_special() {
    let pm = PairingMap::build(&chars("^\"^\"")).unwrap();
    assert_eq!(pm.get_by_left(0), Some(2));
    assert_eq!(pm.get_by_left(1), None);
    assert_eq!(pm.get_by_right(3), None);
}

#[test]
fn unmatched_closer_fails_construction() {
    match PairingMap::build(&chars("[]]")) {
        Err(e) => assert_eq!(e, Error::MismatchedBrackets(2)),
        Ok(_) => panic!("construction should fail"),
    }
}

#[test]
fn unmatched_opener_is_not_an_error() {
    let pm = PairingMap::build(&chars("[[]\"%0^")).unwrap();
    assert_eq!(pm.get_by_left(1), Some(2));
    assert_eq!(pm.get_by_left(0), None);
    assert_eq!(pm.get_by_left(3), None);
    assert_eq!(pm.get_by_left(4), None);
    assert_eq!(pm.get_by_left(5), None);
    assert_eq!(pm.get_by_left(6), None);
}

#[test]
fn offset_keeps_only_pairs_past_the_start() {
    //                                  0123456
    let pm = PairingMap::build(&chars("[][[]][")).unwrap();
    let off = pm.offset(2);
    assert_eq!(off.get_by_left(0), Some(3));
    assert_eq!(off.get_by_left(1), Some(2));
    // the pair (0, 1) straddles the cut and is dropped
    assert_eq!(off.get_by_right(0), None);
    assert_eq!(off.get_by_left(4), None);
}
