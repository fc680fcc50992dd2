use stralg::utils::{Alphabet, AlphabetError, CharSize, CharacterTrait};

#[test]
fn test_char_size_small() {
    let result = CharSize::from_alphabet_size(3).unwrap();
    assert_eq!(result, CharSize::U8);
}

#[test]
fn test_char_size_still_small() {
    let result = CharSize::from_alphabet_size((u8::MAX - 1) as usize).unwrap();
    assert_eq!(result, CharSize::U8);
}

#[test]
fn test_just_too_large_alphabet() {
    let result = CharSize::from_alphabet_size((u16::MAX) as usize);
    assert!(result.is_err());
}

#[test]
fn test_way_too_large_alphabet() {
    let result = CharSize::from_alphabet_size((u32::MAX) as usize);
    assert!(result.is_err());
}

#[test]
fn test_char_size_with_alphabet() {
    let alphabet = Alphabet::from_str("abc");
    let result = alphabet.char_size().unwrap();
    assert_eq!(result, CharSize::U8);
}

#[test]
fn test_char_just_in_u8_with_alphabet() {
    let letters: Vec<char> = (0..(u8::MAX as u32 - 1))
        .map(|c| std::char::from_u32(c).unwrap())
        .collect();
    let alphabet = Alphabet::new(&letters);
    let result = alphabet.char_size().unwrap();
    assert_eq!(result, CharSize::U8);
}

#[test]
fn test_char_size_just_barely_large_with_alphabet() {
    let letters: Vec<char> = (0..u8::MAX as u32)
        .map(|c| std::char::from_u32(c).unwrap())
        .collect();
    let alphabet = Alphabet::new(&letters);
    let result = alphabet.char_size().unwrap();
    assert_eq!(result, CharSize::U16);
}

#[test]
fn char_size_boundaries() {
    assert_eq!(CharSize::from_alphabet_size(0), Ok(CharSize::U8));
    assert_eq!(CharSize::from_alphabet_size(254), Ok(CharSize::U8));
    assert_eq!(CharSize::from_alphabet_size(255), Ok(CharSize::U16));
    assert_eq!(CharSize::from_alphabet_size(65534), Ok(CharSize::U16));
    assert_eq!(
        CharSize::from_alphabet_size(65535),
        Err(AlphabetError::AlphabetTooLarge)
    );
}

#[test]
fn widths_leave_room_for_the_sentinel() {
    assert_eq!(<u8 as CharacterTrait>::max(), 254);
    assert_eq!(<u16 as CharacterTrait>::max(), 65534);
}

#[test]
fn code_values_convert_both_ways() {
    assert_eq!(<u8 as CharacterTrait>::from_usize(7), Some(7u8));
    assert_eq!(7u8.to_usize(), 7);
    assert_eq!(<u8 as CharacterTrait>::from_usize(256), None);
    assert_eq!(<u16 as CharacterTrait>::from_usize(256), Some(256u16));
    assert_eq!(300u16.to_usize(), 300);
    assert_eq!(<u16 as CharacterTrait>::from_usize(65536), None);
}

#[test]
fn alphabet_beyond_sixteen_bits_has_no_char_size() {
    let letters: Vec<char> = (0..70_000u32).filter_map(std::char::from_u32).collect();
    let alphabet = Alphabet::new(&letters);
    assert!(alphabet.len() > 65534);
    assert_eq!(alphabet.char_size(), Err(AlphabetError::AlphabetTooLarge));
}
