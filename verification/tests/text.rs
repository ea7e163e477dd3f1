use llm_wiki::text::{chars_of, is_whitespace, join_with, split_lines, string_of, trimmed};

fn samples() -> Vec<String> {
    let alphabet = ['a', ' ', '\n', '\r', '\t', '\u{3000}', 'é', '/'];
    let mut out = vec![String::new()];
    let mut frontier = vec![String::new()];
    for _ in 0..4 {
        let mut next = Vec::new();
        for s in &frontier {
            for c in alphabet {
                let mut t = s.clone();
                t.push(c);
                next.push(t);
            }
        }
        out.extend(next.iter().cloned());
        frontier = next;
    }
    out
}

#[test]
fn whitespace_matches_std() {
    for u in 0u32..0x11000 {
        if let Some(c) = char::from_u32(u) {
            assert_eq!(is_whitespace(c), c.is_whitespace(), "{:?}", c);
        }
    }
}

#[test]
fn lines_match_std() {
    for s in samples() {
        let got: Vec<String> = split_lines(&chars_of(&s)).iter().map(|l| string_of(l)).collect();
        let want: Vec<String> = s.lines().map(|l| l.to_string()).collect();
        assert_eq!(got, want, "{:?}", s);
    }
}

#[test]
fn trim_matches_std() {
    for s in samples() {
        assert_eq!(string_of(&trimmed(&chars_of(&s))), s.trim(), "{:?}", s);
    }
}

#[test]
fn join_matches_std() {
    let parts: Vec<Vec<char>> = vec![chars_of("a"), chars_of(""), chars_of("bc")];
    assert_eq!(string_of(&join_with(&parts, &chars_of(" > "))), "a >  > bc");
    let none: Vec<Vec<char>> = Vec::new();
    assert_eq!(string_of(&join_with(&none, &chars_of("\n"))), "");
}
