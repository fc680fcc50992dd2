use std::rc::Rc;
use stralg::search::bmh::build_bad_char_table;
use stralg::search::{BMHSearch, KMPSearch, Matcher, Matches, NaiveSearch};
use stralg::utils::{Alphabet, Str};
use stralg::{bmh, kmp, naive, strict_border_array};

#[test]
fn test_bad_charater_table() {
    let p = "abracadabra"; // len = 11
    let alphabet = Rc::new(Alphabet::from_str(p)); // $abcdr
    let p: Str<u8> = Str::from_str(p, &alphabet).unwrap();
    // Jumps table (right-most index from the right, or full pattern if unknown)
    // $ -> 11, a -> 3, b -> 2, c -> 6, d -> 4, r -> 1
    let result = build_bad_char_table(&p);
    assert_eq!(result, vec![11, 3, 2, 6, 4, 1]);
}

#[test]
fn test_kmp() {
    let x = "abracadabra";
    let p = "abr";
    let result: Vec<usize> = kmp(x, p).collect();
    assert_eq!(result, vec![0, 7]);
}

#[test]
fn bad_char_table_of_single_character_pattern() {
    let alphabet = Rc::new(Alphabet::from_str("ab"));
    let p: Str<u8> = Str::from_str("a", &alphabet).unwrap();
    assert_eq!(build_bad_char_table(&p), vec![1, 1, 1]);
}

#[test]
fn bad_char_table_covers_the_whole_alphabet() {
    let alphabet = Rc::new(Alphabet::from_str("abcxyz"));
    let p: Str<u8> = Str::from_str("abcab", &alphabet).unwrap();
    // $ -> 5, a -> 1, b -> 3, c -> 2, x, y, z -> 5
    assert_eq!(build_bad_char_table(&p), vec![5, 1, 3, 2, 5, 5, 5]);
}

#[test]
fn naive_search_finds_single_occurrence() {
    let result: Vec<usize> = naive("hello", "ll").collect();
    assert_eq!(result, vec![2]);
}

#[test]
fn naive_search_finds_separate_occurrences() {
    let result: Vec<usize> = naive("abracadabra", "abr").collect();
    assert_eq!(result, vec![0, 7]);
}

#[test]
fn naive_search_finds_overlapping_occurrences() {
    let result: Vec<usize> = naive("aaaaa", "aa").collect();
    assert_eq!(result, vec![0, 1, 2, 3]);
}

#[test]
fn kmp_search_finds_overlapping_occurrences() {
    let result: Vec<usize> = kmp("aaaaa", "aa").collect();
    assert_eq!(result, vec![0, 1, 2, 3]);
}

#[test]
fn kmp_search_finds_single_occurrence() {
    let result: Vec<usize> = kmp("hello", "ll").collect();
    assert_eq!(result, vec![2]);
}

#[test]
fn bmh_search_finds_separate_occurrences() {
    let result: Vec<usize> = bmh("abracadabra", "abr").collect();
    assert_eq!(result, vec![0, 7]);
    let result: Vec<usize> = bmh("hello", "ll").collect();
    assert_eq!(result, vec![2]);
}

#[test]
fn bmh_search_steps_over_each_occurrence() {
    let result: Vec<usize> = bmh("aaaaa", "aa").collect();
    assert_eq!(result, vec![0, 2]);
    let result: Vec<usize> = bmh("abababab", "abab").collect();
    assert_eq!(result, vec![0, 4]);
    let result: Vec<usize> = bmh("mississippi", "issi").collect();
    assert_eq!(result, vec![1]);
    let result: Vec<usize> = bmh("aaaaaa", "aaa").collect();
    assert_eq!(result, vec![0, 3]);
}

#[test]
fn all_three_agree_on_pattern_without_self_overlap() {
    for (x, p, expected) in [
        ("abracadabra", "abr", vec![0, 7]),
        ("abcabcabc", "abc", vec![0, 3, 6]),
        ("abracadabra", "a", vec![0, 3, 5, 7, 10]),
        ("hello", "ll", vec![2]),
    ] {
        assert_eq!(naive(x, p).collect(), expected);
        assert_eq!(kmp(x, p).collect(), expected);
        assert_eq!(bmh(x, p).collect(), expected);
    }
}

#[test]
fn bmh_diverges_from_kmp_on_overlapping_pattern() {
    let x = "abababab";
    let p = "abab";
    assert_eq!(naive(x, p).collect(), vec![0, 2, 4]);
    assert_eq!(kmp(x, p).collect(), vec![0, 2, 4]);
    assert_eq!(bmh(x, p).collect(), vec![0, 4]);
}

#[test]
fn naive_and_kmp_agree_on_many_inputs() {
    let texts = ["abracadabra", "aaaaaaa", "abababababa", "mississippi", "aabaabaaab", "x"];
    let patterns = ["a", "aa", "ab", "aba", "abab", "issi", "ssi", "aab", "abra", "x", "q"];
    for x in texts {
        for p in patterns {
            let expected: Vec<usize> = (0..x.len())
                .filter(|i| x[*i..].starts_with(p))
                .collect();
            assert_eq!(naive(x, p).collect(), expected);
            assert_eq!(kmp(x, p).collect(), expected);
        }
    }
}

#[test]
fn search_in_empty_text_finds_nothing() {
    assert_eq!(naive("", "abr").collect(), Vec::<usize>::new());
    assert_eq!(kmp("", "abr").collect(), Vec::<usize>::new());
    assert_eq!(bmh("", "abr").collect(), Vec::<usize>::new());
}

#[test]
fn search_for_empty_pattern_finds_nothing() {
    assert_eq!(naive("abracadabra", "").collect(), Vec::<usize>::new());
    assert_eq!(kmp("abracadabra", "").collect(), Vec::<usize>::new());
    assert_eq!(bmh("abracadabra", "").collect(), Vec::<usize>::new());
}

#[test]
fn search_for_longer_pattern_finds_nothing() {
    let x = "abracadabra";
    let p = "abracadabracadabra";
    assert_eq!(naive(x, p).collect(), Vec::<usize>::new());
    assert_eq!(kmp(x, p).collect(), Vec::<usize>::new());
    assert_eq!(bmh(x, p).collect(), Vec::<usize>::new());
}

#[test]
fn search_for_pattern_with_foreign_character_finds_nothing() {
    let x = "abracadabra";
    let p = "abrx";
    assert_eq!(naive(x, p).collect(), Vec::<usize>::new());
    assert_eq!(kmp(x, p).collect(), Vec::<usize>::new());
    assert_eq!(bmh(x, p).collect(), Vec::<usize>::new());
}

#[test]
fn pattern_with_more_characters_but_fewer_bytes_finds_nothing() {
    // two characters in three bytes against three characters in three bytes
    let x = "éa";
    let p = "aaa";
    assert_eq!(naive(x, p).collect(), Vec::<usize>::new());
    assert_eq!(kmp(x, p).collect(), Vec::<usize>::new());
    assert_eq!(bmh(x, p).collect(), Vec::<usize>::new());
}

#[test]
fn offsets_count_characters() {
    let x = "naïve café naïve";
    let p = "ïve";
    assert_eq!(naive(x, p).collect(), vec![2, 13]);
    assert_eq!(kmp(x, p).collect(), vec![2, 13]);
    assert_eq!(bmh(x, p).collect(), vec![2, 13]);
}

#[test]
fn pattern_equal_to_text_is_found_at_zero() {
    assert_eq!(naive("abc", "abc").collect(), vec![0]);
    assert_eq!(kmp("abc", "abc").collect(), vec![0]);
    assert_eq!(bmh("abc", "abc").collect(), vec![0]);
}

#[test]
fn searching_twice_gives_the_same_offsets() {
    let x = "abababababab";
    let p = "aba";
    assert_eq!(naive(x, p).collect(), naive(x, p).collect());
    assert_eq!(kmp(x, p).collect(), kmp(x, p).collect());
    assert_eq!(bmh(x, p).collect(), bmh(x, p).collect());
}

#[test]
fn matches_come_one_by_one_and_then_no_more() {
    let mut found = kmp("aaaa", "aa");
    assert_eq!(found.next(), Some(0));
    assert_eq!(found.next(), Some(1));
    assert_eq!(found.next(), Some(2));
    assert_eq!(found.next(), None);
    assert_eq!(found.next(), None);
    let mut found = naive("aaaa", "aa");
    assert_eq!(found.next(), Some(0));
    assert_eq!(found.next(), Some(1));
    assert_eq!(found.next(), Some(2));
    assert_eq!(found.next(), None);
    assert_eq!(found.next(), None);
    let mut found = bmh("aaaa", "aa");
    assert_eq!(found.next(), Some(0));
    assert_eq!(found.next(), Some(2));
    assert_eq!(found.next(), None);
    assert_eq!(found.next(), None);
}

#[test]
fn collect_returns_what_is_left() {
    let mut found = kmp("abracadabra", "a");
    assert_eq!(found.next(), Some(0));
    assert_eq!(found.next(), Some(3));
    assert_eq!(found.collect(), vec![5, 7, 10]);
}

#[test]
fn empty_result_is_the_empty_variant() {
    assert!(matches!(kmp("", "a"), Matches::Empty));
    assert!(matches!(kmp("abc", "abd"), Matches::Empty));
    assert!(matches!(kmp("abc", "ab"), Matches::U8(_)));
}

#[test]
fn wide_alphabet_is_searched_with_wide_codes() {
    let x: String = (0x100..0x300u32).filter_map(std::char::from_u32).collect();
    let p: String = (0x200..0x203u32).filter_map(std::char::from_u32).collect();
    assert!(matches!(kmp(&x, &p), Matches::U16(_)));
    assert_eq!(naive(&x, &p).collect(), vec![0x100]);
    assert_eq!(kmp(&x, &p).collect(), vec![0x100]);
    assert_eq!(bmh(&x, &p).collect(), vec![0x100]);
}

#[test]
fn text_with_too_many_distinct_characters_yields_nothing() {
    let x: String = (0..70_000u32).filter_map(std::char::from_u32).collect();
    assert_eq!(naive(&x, "abc").collect(), Vec::<usize>::new());
    assert_eq!(kmp(&x, "abc").collect(), Vec::<usize>::new());
    assert_eq!(bmh(&x, "abc").collect(), Vec::<usize>::new());
}

#[test]
fn matchers_work_on_encoded_strings() {
    let alphabet = Rc::new(Alphabet::from_str("abracadabra"));
    let text = || Str::<u8>::from_str("abracadabra", &alphabet).unwrap();
    let pattern = || Str::<u8>::from_str("abra", &alphabet).unwrap();

    let mut by_naive = NaiveSearch::new(text(), pattern());
    assert_eq!(by_naive.next(), Some(0));
    assert_eq!(by_naive.next(), Some(7));
    assert_eq!(by_naive.next(), None);

    let ba = strict_border_array(&pattern());
    let mut by_kmp = KMPSearch::new(text(), pattern(), ba);
    assert_eq!(by_kmp.next(), Some(0));
    assert_eq!(by_kmp.next(), Some(7));
    assert_eq!(by_kmp.next(), None);

    let mut by_bmh = BMHSearch::new(text(), pattern());
    assert_eq!(by_bmh.next(), Some(0));
    assert_eq!(by_bmh.next(), Some(7));
    assert_eq!(by_bmh.next(), None);
}

#[test]
fn matchers_accept_pattern_longer_than_text() {
    let alphabet = Rc::new(Alphabet::from_str("ab"));
    let text = || Str::<u8>::from_str("ab", &alphabet).unwrap();
    let pattern = || Str::<u8>::from_str("abab", &alphabet).unwrap();
    assert_eq!(NaiveSearch::new(text(), pattern()).next(), None);
    let ba = strict_border_array(&pattern());
    assert_eq!(KMPSearch::new(text(), pattern(), ba).next(), None);
    assert_eq!(BMHSearch::new(text(), pattern()).next(), None);
}
