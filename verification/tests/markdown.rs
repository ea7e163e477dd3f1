use llm_wiki::markdown::{chunk_document, document_at, has_text_paragraphs};
use llm_wiki::model::MarkdownDocument;

fn doc(relative_path: &str, content: &str) -> MarkdownDocument {
    MarkdownDocument {
        relative_path: relative_path.to_string(),
        absolute_path: relative_path.to_string(),
        content: content.to_string(),
    }
}

fn texts(relative_path: &str, content: &str, limit: usize) -> Vec<(String, String)> {
    chunk_document(&doc(relative_path, content), limit)
        .into_iter()
        .map(|c| (c.heading_path, c.text))
        .collect()
}

#[test]
fn chunks_follow_heading_boundaries() {
    let doc = doc("demo.md", "# A\nline1\n\nline2\n## B\nline3");

    let chunks = chunk_document(&doc, 32);
    assert_eq!(chunks.len(), 2);
    assert!(chunks[0].text.contains("Heading: A"));
    assert!(chunks[1].text.contains("Heading: A > B"));
}

#[test]
fn chunk_texts_are_exact() {
    let got = texts("demo.md", "# A\nline1\n\nline2\n## B\nline3", 32);
    assert_eq!(
        got,
        vec![
            ("A".to_string(), "Path: demo.md\nHeading: A\n\nline1\n\nline2".to_string()),
            ("A > B".to_string(), "Path: demo.md\nHeading: A > B\n\nline3".to_string()),
        ]
    );
}

#[test]
fn paragraphs_split_when_the_byte_limit_is_passed() {
    // "line1" + "\n\n" + "line2" is 12 bytes: over a limit of 11.
    let got = texts("d.md", "# A\nline1\n\nline2", 11);
    assert_eq!(got.len(), 2);
    assert_eq!(got[0].1, "Path: d.md\nHeading: A\n\nline1");
    assert_eq!(got[1].1, "Path: d.md\nHeading: A\n\nline2");
    // 12 bytes fit a limit of 12.
    let got = texts("d.md", "# A\nline1\n\nline2", 12);
    assert_eq!(got.len(), 1);
}

#[test]
fn limit_counts_bytes_when_merging() {
    // Each paragraph is 2 characters but 4 bytes; merged they take 10 bytes.
    let got = texts("d.md", "éé\n\néé", 9);
    assert_eq!(got.len(), 2);
    let got = texts("d.md", "éé\n\néé", 10);
    assert_eq!(got.len(), 1);
    assert_eq!(got[0].1, "Path: d.md\n\néé\n\néé");
}

#[test]
fn long_paragraph_is_cut_by_characters() {
    let got = texts("d.md", "abcdefghijkl", 5);
    let bodies: Vec<&str> = got.iter().map(|(_, t)| t.strip_prefix("Path: d.md\n\n").unwrap()).collect();
    assert_eq!(bodies, vec!["abcde", "fghij", "kl"]);
}

#[test]
fn long_paragraph_closes_the_open_chunk() {
    let got = texts("d.md", "ab\n\ncdefgh", 4);
    let bodies: Vec<&str> = got.iter().map(|(_, t)| t.strip_prefix("Path: d.md\n\n").unwrap()).collect();
    assert_eq!(bodies, vec!["ab", "cdef", "gh"]);
}

#[test]
fn multibyte_long_paragraph_cut_into_characters() {
    // 6 characters, 12 bytes, limit 4 bytes: cut into 4-character pieces.
    let got = texts("d.md", "éééééé", 4);
    let bodies: Vec<&str> = got.iter().map(|(_, t)| t.strip_prefix("Path: d.md\n\n").unwrap()).collect();
    assert_eq!(bodies, vec!["éééé", "éé"]);
}

#[test]
fn document_without_sections_gives_one_chunk() {
    let got = texts("only.md", "  # Only\n", 16);
    assert_eq!(got, vec![("".to_string(), "Path: only.md\n\n# Only".to_string())]);
    let got = texts("empty.md", "", 16);
    assert_eq!(got, vec![("".to_string(), "Path: empty.md\n\n".to_string())]);
}

#[test]
fn heading_rules() {
    // Seven hashes are no heading; a title right after the hashes is one.
    let got = texts("h.md", "####### seven\n#tag\nbody", 100);
    assert_eq!(
        got,
        vec![
            ("".to_string(), "Path: h.md\n\n####### seven".to_string()),
            ("tag".to_string(), "Path: h.md\nHeading: tag\n\nbody".to_string()),
        ]
    );
    // A heading without a title is a body line.
    let got = texts("h.md", "# T\n##   \nx", 100);
    assert_eq!(got, vec![("T".to_string(), "Path: h.md\nHeading: T\n\n##   \nx".to_string())]);
}

#[test]
fn heading_stack_nests_and_unwinds() {
    let got = texts("n.md", "# A\n### C\nc\n## B\nb\n# D\nd", 100);
    let headings: Vec<&str> = got.iter().map(|(h, _)| h.as_str()).collect();
    assert_eq!(headings, vec!["A > C", "A > B", "D"]);
}

#[test]
fn crlf_and_blank_lines() {
    let got = texts("c.md", "# A\r\none\r\n\r\ntwo\r\n", 100);
    assert_eq!(got, vec![("A".to_string(), "Path: c.md\nHeading: A\n\none\n\ntwo".to_string())]);
}

#[test]
fn zero_limit_without_text_is_accepted() {
    let got = texts("z.md", "# Title\n\n   \n", 0);
    assert_eq!(got, vec![("".to_string(), "Path: z.md\n\n# Title".to_string())]);
}

#[test]
fn chunk_bodies_fit_the_limit() {
    let content = "# Doc\nalpha beta gamma delta\n\nepsilon\n\nzeta eta theta iota kappa lambda\n## Sub\nmu nu xi";
    for limit in 1..40 {
        for (heading, text) in texts("f.md", content, limit) {
            let prefix = if heading.is_empty() {
                "Path: f.md\n\n".to_string()
            } else {
                format!("Path: f.md\nHeading: {}\n\n", heading)
            };
            let body = text.strip_prefix(&prefix).unwrap();
            assert!(body.chars().count() <= limit, "limit {} body {:?}", limit, body);
        }
    }
}

#[test]
fn document_paths_are_relative_to_the_root() {
    let d = document_at("/kb", "/kb/notes/a.md", "x".to_string()).unwrap();
    assert_eq!(d.relative_path, "notes/a.md");
    assert_eq!(d.absolute_path, "/kb/notes/a.md");
    assert_eq!(d.content, "x");
    assert!(document_at("/kb", "/other/a.md", String::new()).is_none());
    let d = document_at("/kb/", "/kb//deep/./b.md", String::new()).unwrap();
    assert_eq!(d.relative_path, "deep/b.md");
}

#[test]
fn every_chunk_names_its_document() {
    for content in ["", "# A\nx", "plain\n\ntext", "# A\n## B\n### C\nbody\n\nmore"] {
        let chunks = chunk_document(&doc("dir/n.md", content), 8);
        assert!(!chunks.is_empty());
        for c in chunks {
            assert!(c.text.starts_with("Path: dir/n.md\n"), "{:?}", c.text);
        }
    }
}

#[test]
fn cut_pieces_rebuild_the_paragraph() {
    let text = "0123456789abcdefghij";
    for limit in 1..25 {
        let got = texts("p.md", text, limit);
        let rebuilt: String = got
            .iter()
            .map(|(_, t)| t.strip_prefix("Path: p.md\n\n").unwrap())
            .collect();
        assert_eq!(rebuilt, text);
    }
}

#[test]
fn text_paragraph_detection() {
    assert!(has_text_paragraphs("# A\nbody"));
    assert!(has_text_paragraphs("loose text"));
    assert!(!has_text_paragraphs("# A\n## B\n\n  \n"));
    assert!(!has_text_paragraphs(""));
}
