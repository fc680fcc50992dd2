use std::rc::Rc;
use stralg::utils::{Alphabet, Str};
use stralg::{border_array, strict_border_array};

fn encode(p: &str) -> Str<u8> {
    let alpha = Rc::new(Alphabet::from_str(p));
    Str::from_str(p, &alpha).unwrap()
}

#[test]
fn test_border_array() {
    let p = "abracadabra";
    let alpha = Rc::new(Alphabet::from_str(p));
    let p: Str<u8> = Str::from_str(p, &alpha).unwrap();
    let b = border_array(&p);
    assert_eq!(b, vec![0, 0, 0, 1, 0, 1, 0, 1, 2, 3, 4]);
}

#[test]
fn test_strict_border_array() {
    let p = "abracadabra";
    let alpha = Rc::new(Alphabet::from_str(p));
    let p: Str<u8> = Str::from_str(p, &alpha).unwrap();
    let b = strict_border_array(&p);
    assert_eq!(b, vec![0, 0, 0, 1, 0, 1, 0, 0, 0, 0, 4]);
}

#[test]
fn border_array_of_repeated_character() {
    assert_eq!(border_array(&encode("aaaa")), vec![0, 1, 2, 3]);
}

#[test]
fn strict_border_array_of_repeated_character() {
    assert_eq!(strict_border_array(&encode("aaaa")), vec![0, 0, 0, 3]);
}

#[test]
fn strict_border_array_without_borders() {
    assert_eq!(strict_border_array(&encode("abcd")), vec![0, 0, 0, 0]);
}

#[test]
fn border_arrays_of_empty_pattern_are_empty() {
    let p = encode("");
    assert_eq!(border_array(&p), Vec::<usize>::new());
    assert_eq!(strict_border_array(&p), Vec::<usize>::new());
}

#[test]
fn border_arrays_of_single_character() {
    let p = encode("a");
    assert_eq!(border_array(&p), vec![0]);
    assert_eq!(strict_border_array(&p), vec![0]);
}

#[test]
fn border_array_entries_are_bounded_by_their_index() {
    for p in ["abracadabra", "aabaabaaab", "abababab", "mississippi"] {
        let b = border_array(&encode(p));
        assert_eq!(b.len(), p.len());
        assert_eq!(b[0], 0);
        for (i, k) in b.iter().enumerate() {
            assert!(*k <= i);
        }
    }
}

#[test]
fn strict_border_array_is_dominated_by_border_array() {
    for p in ["abracadabra", "aabaabaaab", "abababab", "mississippi", "aaaa"] {
        let p = encode(p);
        let b = border_array(&p);
        let s = strict_border_array(&p);
        assert_eq!(b.len(), s.len());
        for i in 0..b.len() {
            assert!(s[i] <= b[i]);
        }
    }
}

#[test]
fn strict_border_array_chases_through_earlier_entries() {
    // borders of "aabaabaaab" are [0,1,0,1,2,3,4,5,2,3]
    let p = encode("aabaabaaab");
    assert_eq!(border_array(&p), vec![0, 1, 0, 1, 2, 3, 4, 5, 2, 3]);
    assert_eq!(strict_border_array(&p), vec![0, 1, 0, 0, 1, 0, 0, 5, 1, 3]);
}
