use treapkit::text_search::{
    boyer_moore_search, brute_force_search, build_kmp_automaton, is_prefix, kmp_prefix_function,
    kmp_search, kmp_search_automaton, prefix_shift_search, stands_at, suffix_length,
    suffix_shift_search,
};

fn chars(s: &str) -> Vec<char> {
    s.chars().collect()
}

#[test]
fn brute_force_finds_the_first_place() {
    let text = chars("abracadabra");
    assert_eq!(brute_force_search(&text, &chars("abra")), Some(0));
    assert_eq!(brute_force_search(&text, &chars("cad")), Some(4));
    assert_eq!(brute_force_search(&text, &chars("bra")), Some(1));
    assert_eq!(brute_force_search(&text, &chars("abracadabra")), Some(0));
    assert_eq!(brute_force_search(&text, &chars("xyz")), None);
    assert_eq!(brute_force_search(&text, &chars("")), Some(0));
    assert!(stands_at(&text, &chars("dabra"), 6));
    assert!(!stands_at(&text, &chars("dabra"), 5));
}

#[test]
fn boyer_moore_finds_a_place() {
    let text = b"here is a simple example of text";
    assert_eq!(boyer_moore_search(text, b"example"), Some(17));
    assert_eq!(boyer_moore_search(text, b"here"), Some(0));
    assert_eq!(boyer_moore_search(text, b"text"), Some(28));
    assert_eq!(boyer_moore_search(text, b"t"), Some(28));
    assert_eq!(boyer_moore_search(text, b" "), Some(4));
    assert_eq!(boyer_moore_search(text, b"examples"), None);
    assert_eq!(boyer_moore_search(text, b""), Some(0));
    assert_eq!(boyer_moore_search(b"ab", b"abc"), None);
    assert_eq!(boyer_moore_search(b"aaaaaaab", b"aab"), Some(5));
    assert_eq!(boyer_moore_search(b"abababab", b"bab"), Some(3));
    assert_eq!(boyer_moore_search(b"xxabab", b"abab"), None);
}

#[test]
fn the_shift_searches_compare_all_but_the_first_item() {
    let text = chars("say hello world");
    assert_eq!(prefix_shift_search(&text, &chars("hello")), Some(4));
    assert_eq!(prefix_shift_search(&text, &chars("jello")), Some(4));
    assert_eq!(prefix_shift_search(&text, &chars("world")), None);
    assert_eq!(prefix_shift_search(&text, &chars("o w")), Some(8));
    assert_eq!(prefix_shift_search(&text, &chars("y")), Some(0));
    assert_eq!(prefix_shift_search(&text, &chars("abc")), None);
    assert_eq!(suffix_shift_search(&text, &chars("hello")), Some(4));
    assert_eq!(suffix_shift_search(&text, &chars("jello")), None);
    assert_eq!(suffix_shift_search(&text, &chars("world")), Some(10));
    assert_eq!(suffix_shift_search(&text, &chars("o w")), Some(8));
    assert_eq!(suffix_shift_search(&text, &chars("abc")), None);
    assert_eq!(suffix_shift_search(&chars("ab"), &chars("abc")), None);
}

#[test]
fn pattern_tables() {
    assert!(is_prefix(b"abcab", 3));
    assert!(!is_prefix(b"abcab", 2));
    assert!(is_prefix(b"abcab", 5));
    assert_eq!(suffix_length(b"abcab", 2), 2);
    assert_eq!(suffix_length(b"abcab", 1), 0);
    assert_eq!(suffix_length(b"aaaa", 2), 2);
    assert_eq!(suffix_length(b"abcab", 0), 0);
    assert_eq!(kmp_prefix_function(&chars("abcabcd")), vec![0, 0, 0, 1, 2, 3, 0]);
    assert_eq!(kmp_prefix_function(&chars("aaaa")), vec![0, 1, 2, 3]);
    assert_eq!(kmp_prefix_function(&chars("")), Vec::<usize>::new());
}

#[test]
fn kmp_finds_a_place() {
    let text = chars("abcabcabd");
    assert_eq!(kmp_search(&text, &chars("abcabd")), Some(3));
    assert_eq!(kmp_search(&text, &chars("abc")), Some(0));
    assert_eq!(kmp_search(&text, &chars("d")), Some(8));
    assert_eq!(kmp_search(&text, &chars("abda")), None);
    assert_eq!(kmp_search(&text, &chars("")), Some(1));
    assert_eq!(kmp_search(&chars(""), &chars("")), None);
    assert_eq!(kmp_search(&chars(""), &chars("a")), None);
}

#[test]
fn the_automaton_reads_the_pattern() {
    let automaton = build_kmp_automaton(b"abab");
    assert_eq!(automaton.len(), 5);
    assert!(automaton.iter().all(|row| row.len() == 256));
    assert_eq!(automaton[0][b'a' as usize], 1);
    assert_eq!(automaton[1][b'b' as usize], 2);
    assert_eq!(automaton[2][b'a' as usize], 3);
    assert_eq!(automaton[3][b'b' as usize], 4);
    assert_eq!(automaton[3][b'a' as usize], 1);
    assert_eq!(automaton[4][b'a' as usize], 3);
    assert_eq!(automaton[2][b'x' as usize], 0);
    assert_eq!(kmp_search_automaton(b"abcabcabd", b"abcabd"), Some(3));
    assert_eq!(kmp_search_automaton(b"abcabcabd", b"abc"), Some(0));
    assert_eq!(kmp_search_automaton(b"abcabcabd", b"abda"), None);
    assert_eq!(kmp_search_automaton(b"xxabab", b"abab"), Some(2));
}

#[test]
fn the_shift_searches_pass_over_places() {
    assert_eq!(prefix_shift_search(&chars("abcabcabd"), &chars("abd")), Some(6));
    assert_eq!(prefix_shift_search(&chars("aaaaab"), &chars("aab")), None);
    assert_eq!(prefix_shift_search(&chars("xbcd"), &chars("abcd")), Some(0));
    assert_eq!(prefix_shift_search(&chars("abababab"), &chars("bab")), None);
    assert_eq!(prefix_shift_search(&chars("zzzabz"), &chars("abz")), Some(3));
    assert_eq!(suffix_shift_search(&chars("abcabcabd"), &chars("abd")), Some(6));
    assert_eq!(suffix_shift_search(&chars("aaaaab"), &chars("aab")), Some(3));
    assert_eq!(suffix_shift_search(&chars("xbcd"), &chars("abcd")), Some(0));
    assert_eq!(suffix_shift_search(&chars("abababab"), &chars("bab")), Some(1));
    assert_eq!(suffix_shift_search(&chars("hello"), &chars("l")), Some(0));
    assert_eq!(suffix_shift_search(&chars("short"), &chars("longer pattern")), None);
}

#[test]
fn the_automaton_finds_the_first_place() {
    assert_eq!(kmp_search_automaton(b"aaaaab", b"aab"), Some(3));
    assert_eq!(kmp_search_automaton(b"abababab", b"bab"), Some(1));
    assert_eq!(kmp_search_automaton(b"aaa", b"aa"), Some(0));
    assert_eq!(kmp_search_automaton(b"aabaabaaab", b"aabaaab"), Some(3));
    assert_eq!(kmp_search_automaton(b"", b"a"), None);
    assert_eq!(kmp_search_automaton(b"ab", b"abc"), None);
    assert_eq!(kmp_search_automaton(b"abcab", b"abcabc"), None);
    let automaton = build_kmp_automaton(b"aabaaab");
    assert_eq!(automaton[6][b'a' as usize], 2);
    assert_eq!(automaton[5][b'b' as usize], 3);
    assert_eq!(automaton[7][b'a' as usize], 4);
}
