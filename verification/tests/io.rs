use solution::io::Scanner;

#[test]
fn scanner_reads_whitespace_separated_tokens() {
    let mut scanner = Scanner::new(b"  3\n-5 hello ".to_vec());

    assert_eq!(scanner.read::<usize>(), Some(3));
    assert_eq!(scanner.read::<i32>(), Some(-5));
    assert_eq!(scanner.read::<String>(), Some("hello".to_string()));
}

#[test]
fn scanner_gives_none_past_the_last_token() {
    let mut scanner = Scanner::new(b"7 \t\r\n".to_vec());

    assert_eq!(scanner.read::<u64>(), Some(7));
    assert_eq!(scanner.read::<u64>(), None);
    assert_eq!(scanner.read::<String>(), Some(String::new()));
}

#[test]
fn scanner_skips_a_token_that_does_not_parse() {
    let mut scanner = Scanner::new(b"x12 12".to_vec());

    assert_eq!(scanner.read::<u32>(), None);
    assert_eq!(scanner.read::<u32>(), Some(12));
}

#[test]
fn scanner_reads_tokens_separated_by_every_kind_of_whitespace() {
    let mut scanner = Scanner::new(b"a\tb\nc\x0cd\re f".to_vec());
    let mut tokens = Vec::new();
    for _ in 0..6 {
        tokens.push(scanner.read::<String>().unwrap());
    }
    assert_eq!(tokens, vec!["a", "b", "c", "d", "e", "f"]);
    assert_eq!(scanner.read::<String>(), Some(String::new()));
}

#[test]
fn token_gives_the_bytes_of_each_word() {
    let mut scanner = Scanner::new(b"  ab\tcde\n".to_vec());
    assert_eq!(scanner.token(), b"ab".to_vec());
    assert_eq!(scanner.token(), b"cde".to_vec());
    assert_eq!(scanner.token(), Vec::<u8>::new());
}
