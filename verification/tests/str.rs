use std::rc::Rc;
use stralg::utils::{Alphabet, AlphabetError, Str, StrMapper, StrMappers};

#[test]
fn test_str_mapper_new() {
    let alphabet = Rc::new(Alphabet::from_str("abc"));
    let mapper = StrMappers::new(&alphabet).unwrap();
    match mapper {
        StrMappers::U8Mapper(_) => (),
        _ => panic!("Expected StrMapper::U8"),
    }
}

#[test]
fn test_str_mapper_large_alphabet() {
    let letters: Vec<char> = (0..=u8::MAX).map(|c| c as char).collect(); // Too many chars for u8 (with sentinel)
    let alphabet = Rc::new(Alphabet::new(&letters));
    let mapper = StrMappers::new(&alphabet).unwrap();
    match mapper {
        StrMappers::U16Mapper(_) => (),
        _ => panic!("Expected StrMapper::U16"),
    }
}

#[test]
fn test_sized_str_mapper_new() {
    let alphabet = Rc::new(Alphabet::from_str("abc"));
    let mapper = StrMapper::<u8>::new(&alphabet);
    assert_eq!(mapper.alphabet.len(), 3);
}

#[test]
fn test_sized_str_mapper_map_str() {
    let alphabet = Rc::new(Alphabet::from_str("abc"));
    let mapper = StrMapper::<u8>::new(&alphabet);
    let result = mapper.map_str("abc").unwrap();
    assert_eq!(result, Str::new(vec![1, 2, 3], &alphabet));
}

#[test]
fn test_sized_str_mapper_map_str_error() {
    let alphabet = Rc::new(Alphabet::from_str("abc"));
    let mapper = StrMapper::<u8>::new(&alphabet);
    let result = mapper.map_str("def");
    assert!(result.is_err());
}

#[test]
fn test_sized_str_mapper_map_str_error_2() {
    let alphabet = Rc::new(Alphabet::from_str("abc"));
    let mapper = StrMapper::<u8>::new(&alphabet);
    let result = mapper.map_str("abcd");
    assert!(result.is_err());
}

#[test]
fn test_str_mappers_new_from_str() {
    let mapper = StrMappers::new_from_str("abc").unwrap();
    match mapper {
        StrMappers::U8Mapper(_) => (),
        _ => panic!("Expected StrMapper::U8"),
    }
}

#[test]
fn test_str_mappers_new_from_strs() {
    let mapper = StrMappers::new_from_strs(&["abc", "def"]).unwrap();
    match mapper {
        StrMappers::U8Mapper(_) => (),
        _ => panic!("Expected StrMapper::U8"),
    }
}

#[test]
fn test_mapper_map_str() {
    let mapper = StrMappers::new_from_str("abc").unwrap();
    let mapper = match mapper {
        StrMappers::U8Mapper(mapper) => mapper,
        _ => panic!("Expected StrMapper::U8"),
    };
    let result = mapper.map_str("abc").unwrap();
    assert_eq!(result, Str::new(vec![1, 2, 3], &mapper.alphabet));
}

#[test]
fn test_str_new() {
    let alphabet = Rc::new(Alphabet::from_str("abc"));
    let chars = vec![1u8, 2, 3];
    let s = Str::new(chars, &alphabet);
    assert_eq!(s[0], 1);
    assert_eq!(s[1], 2);
    assert_eq!(s[2], 3);
}

#[test]
fn test_str_from_str() {
    let alphabet = Rc::new(Alphabet::from_str("abc"));
    let s = Str::<u8>::from_str("abc", &alphabet).unwrap();
    assert_eq!(s[0], 1);
    assert_eq!(s[1], 2);
    assert_eq!(s[2], 3);
}

#[test]
fn test_from_str_alphabet_too_large() {
    let letters: Vec<char> = (0..=u8::MAX).map(|c| c as char).collect(); // Too many chars for u8 (with sentinel)
    let alphabet = Rc::new(Alphabet::new(&letters));
    let result = Str::<u8>::from_str("abc", &alphabet);
    assert!(result.is_err());
}

#[test]
fn from_str_names_each_failure() {
    let letters: Vec<char> = (0..=u8::MAX).map(|c| c as char).collect();
    let large = Rc::new(Alphabet::new(&letters));
    assert_eq!(
        Str::<u8>::from_str("abc", &large).err(),
        Some(AlphabetError::AlphabetTooLarge)
    );
    assert_eq!(
        Str::<u8>::from_str("", &large).err(),
        Some(AlphabetError::AlphabetTooLarge)
    );
    let small = Rc::new(Alphabet::from_str("abc"));
    assert_eq!(
        Str::<u8>::from_str("cabxa", &small).err(),
        Some(AlphabetError::UnknownCharacter { character: 'x', position: 3 })
    );
}

#[test]
fn str_len_and_iter_follow_the_text() {
    let alphabet = Rc::new(Alphabet::from_str("abc"));
    let s = Str::<u8>::from_str("cabba", &alphabet).unwrap();
    assert_eq!(s.len(), 5);
    let codes: Vec<u8> = s.iter().copied().collect();
    assert_eq!(codes, vec![3, 1, 2, 2, 1]);
    assert_eq!(s.alphabet().len(), 3);
}

#[test]
fn translate_to_this_alphabet_shares_the_codes() {
    let alphabet = Rc::new(Alphabet::new(&['a', 'b', 'c']));
    let chars = vec![1u8, 2, 3];
    let s1 = Str::new(chars, &alphabet);
    let s2 = s1.translate_to_this_alphabet("abc").unwrap();
    assert_eq!(s2[0], 1);
    assert_eq!(s2[1], 2);
    assert_eq!(s2[2], 3);
    assert_eq!(s1, s2);
    assert_eq!(
        s1.translate_to_this_alphabet("abd").err(),
        Some(AlphabetError::UnknownCharacter { character: 'd', position: 2 })
    );
}

#[test]
fn wide_strings_hold_codes_above_eight_bits() {
    let letters: Vec<char> = (0..=u8::MAX).map(|c| c as char).collect();
    let alphabet = Rc::new(Alphabet::new(&letters));
    let s = Str::<u16>::from_str("\u{ff}\u{0}", &alphabet).unwrap();
    assert_eq!(s[0], 256);
    assert_eq!(s[1], 1);
}

#[test]
fn mappers_refuse_alphabets_beyond_sixteen_bits() {
    let letters: Vec<char> = (0..70_000u32).filter_map(std::char::from_u32).collect();
    let alphabet = Rc::new(Alphabet::new(&letters));
    assert!(matches!(
        StrMappers::new(&alphabet),
        Err(AlphabetError::AlphabetTooLarge)
    ));
    let text: String = letters.iter().collect();
    assert!(matches!(
        StrMappers::new_from_str(&text),
        Err(AlphabetError::AlphabetTooLarge)
    ));
    assert!(matches!(
        StrMappers::new_from_strs(&[&text, "abc"]),
        Err(AlphabetError::AlphabetTooLarge)
    ));
}
