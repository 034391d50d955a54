use org_processing::{
    Clock, ClockError, Grammar, Headline, OrgDocument, OrgFile, ParseWarning, Reader,
};
use std::path::Path;

fn parse(text: &str) -> OrgDocument {
    OrgDocument::parse(&Grammar::new().unwrap(), "test.org".to_string(), text)
}

#[test]
fn heading_hierarchy_closes_deeper_and_equal_levels() {
    let doc = parse("* A\n** B\n*** C\n** D\n");
    assert_eq!(doc.headlines.len(), 4);
    assert_eq!(doc.headlines[0].parent, None);
    assert_eq!(doc.headlines[1].parent, Some(0));
    assert_eq!(doc.headlines[2].parent, Some(1));
    assert_eq!(doc.headlines[3].parent, Some(0));
    assert_eq!(doc.headlines[3].title, "D");
    assert_eq!(doc.headlines[3].line, 4);
    assert_eq!(doc.headlines[3].level, 2);
}

#[test]
fn a_second_top_heading_has_no_parent() {
    let doc = parse("** A\n*** B\n* C\n** D\n");
    assert_eq!(doc.headlines[0].parent, None);
    assert_eq!(doc.headlines[1].parent, Some(0));
    assert_eq!(doc.headlines[2].parent, None);
    assert_eq!(doc.headlines[3].parent, Some(2));
}

#[test]
fn clocks_belong_to_the_last_heading_above() {
    let doc = parse(
        "\n* A\nCLOCK: [2022-12-12 Mon 10:45]--[2022-12-12 Mon 10:55] =>  0:10\n** B\ntext\nCLOCK: [2022-12-12 Mon 11:45]\n",
    );
    assert_eq!(doc.clocks.len(), 2);
    assert_eq!(doc.clocks[0].line, 3);
    assert_eq!(doc.clocks[0].parent, 0);
    assert_eq!(doc.clocks[1].line, 6);
    assert_eq!(doc.clocks[1].parent, 1);
    assert_eq!(doc.headlines[0].line, 2);
    assert_eq!(doc.headlines[1].line, 4);
    assert_eq!(doc.file, "test.org");
}

#[test]
fn lines_inside_a_block_are_skipped() {
    let doc = parse(
        "* A\n#+begin_src org\n* not a heading\nCLOCK: [2022-12-12 Mon 10:45]\n#+end_example\n#+end_src\n* B\n",
    );
    assert_eq!(doc.headlines.len(), 2);
    assert_eq!(doc.headlines[1].title, "B");
    assert_eq!(doc.headlines[1].line, 7);
    assert_eq!(doc.clocks.len(), 0);
}

#[test]
fn an_open_block_runs_to_the_end() {
    let doc = parse("* A\n#+begin_src\n* B\n");
    assert_eq!(doc.headlines.len(), 1);
}

#[test]
fn warnings_are_reported() {
    let grammar = Grammar::new().unwrap();
    let (doc, warnings) = OrgDocument::parse_with_warnings(
        &grammar,
        "w.org".to_string(),
        "CLOCK: [2022-12-12 Mon 10:45]\n* A\nCLOCK: [2022-12-12 Mon 10:45]\n\nCLOCK: [2022-12-12 Mon 11:45]\nCLOCK: [2022-02-31 Mon 11:45]\nCLOCK: [2022-12-12 Mon 11:45]--[2022-12-12 Mon 25:00]\n",
    );
    assert_eq!(doc.clocks.len(), 2);
    assert_eq!(
        warnings,
        vec![
            ParseWarning::ClockWithoutHeading { line: 1 },
            ParseWarning::ClockAfterGap { line: 5, previous: 3 },
            ParseWarning::InvalidClock { line: 6, error: ClockError::InvalidStart },
            ParseWarning::InvalidClock { line: 7, error: ClockError::InvalidEnd },
        ]
    );
}

#[test]
fn adjacent_clocks_give_no_warning() {
    let grammar = Grammar::new().unwrap();
    let (_, warnings) = OrgDocument::parse_with_warnings(
        &grammar,
        "w.org".to_string(),
        "* A\nCLOCK: [2022-12-12 Mon 10:45]\nCLOCK: [2022-12-12 Mon 11:45]\n* B\n\nCLOCK: [2022-12-12 Mon 12:45]\n",
    );
    assert!(warnings.is_empty());
}

#[test]
fn empty_text_is_an_empty_document() {
    let doc = parse("");
    assert!(doc.headlines.is_empty());
    assert!(doc.clocks.is_empty());
}

#[test]
fn carriage_returns_end_lines_too() {
    let doc = parse("* A\r\n** B :t:\r\nCLOCK: [2022-12-12 Mon 10:45]\r\n");
    assert_eq!(doc.headlines.len(), 2);
    assert_eq!(doc.headlines[0].title, "A");
    assert_eq!(doc.headlines[1].tags_string.as_deref(), Some(":t:"));
    assert_eq!(doc.clocks.len(), 1);
    assert_eq!(doc.clocks[0].line, 3);
}

#[test]
fn file_name_is_the_last_part_of_the_path() {
    let grammar = Grammar::new().unwrap();
    let doc = OrgDocument::parse(&grammar, "/home/me/org/clockin.org".to_string(), "");
    assert_eq!(doc.file_name(), "clockin.org");
    let doc = OrgDocument::parse(&grammar, "plain.org".to_string(), "");
    assert_eq!(doc.file_name(), "plain.org");
    let doc = OrgDocument::parse(&grammar, "dir/".to_string(), "");
    assert_eq!(doc.file_name(), "dir");
    let doc = OrgDocument::parse(&grammar, "dir/..".to_string(), "");
    assert_eq!(doc.file_name(), "");
    let doc = OrgDocument::parse(&grammar, "..".to_string(), "");
    assert_eq!(doc.file_name(), "");
    let doc = OrgDocument::parse(&grammar, "/".to_string(), "");
    assert_eq!(doc.file_name(), "");
    let doc = OrgDocument::parse(&grammar, "".to_string(), "");
    assert_eq!(doc.file_name(), "");
}

#[test]
fn file_names_agree_with_the_standard_library() {
    let grammar = Grammar::new().unwrap();
    let paths = [
        "", "/", "//", ".", "..", "./", "../", "/.", "/..", "a", "a/", "a//", "a/.", "a/./",
        "a/..", "a/../", "a/b", "a//b", "a/./b", "/a/b.org", "./a", "../a", "a/.b", "a/b.",
        "a/...", ".a", "..a", "a/. ", "a/.//.", "/./a/.", "a b/c d.org", "a\\b", "ä/ö.org",
        "a/./.", ".//", "./.", "a/b/../c", "a/b/..", "...",
    ];
    for path in paths {
        let doc = OrgDocument::parse(&grammar, path.to_string(), "");
        let std_name = Path::new(path).file_name().and_then(|name| name.to_str()).unwrap_or("");
        assert_eq!(doc.file_name(), std_name, "{path:?}");
    }
}

#[test]
fn the_reader_goes_line_by_line() {
    let grammar = Grammar::new().unwrap();
    let reader = Reader::new();
    let reader = reader.read_line(&grammar, "* A", 1);
    let reader = reader.read_line(&grammar, "** B", 2);
    let reader = reader.read_line(&grammar, "CLOCK: [2022-12-12 Mon 10:45]", 3);
    let reader = reader.read_line(&grammar, "#+begin_src rust", 4);
    let reader = reader.read_line(&grammar, "* not a heading", 5);
    let reader = reader.read_line(&grammar, "#+end_quote", 6);
    let reader = reader.read_line(&grammar, "CLOCK: [2022-12-12 Mon 11:45]", 7);
    let reader = reader.read_line(&grammar, "#+end_src", 8);
    let reader = reader.read_line(&grammar, "* C", 9);
    let reader = reader.read_line(&grammar, "text", 10);
    let (doc, warnings) = reader.finish("a.org".to_string());
    assert_eq!(doc.file, "a.org");
    assert_eq!(doc.headlines.len(), 3);
    assert_eq!(doc.headlines[0].parent, None);
    assert_eq!(doc.headlines[1].parent, Some(0));
    assert_eq!(doc.headlines[2].parent, None);
    assert_eq!(doc.headlines[2].line, 9);
    assert_eq!(doc.clocks.len(), 1);
    assert_eq!(doc.clocks[0].line, 3);
    assert_eq!(doc.clocks[0].parent, 1);
    assert!(warnings.is_empty());
}

#[test]
fn the_reader_places_what_it_is_handed() {
    let grammar = Grammar::new().unwrap();
    let heading = Headline::parse(&grammar, "** Deep").unwrap();
    let top = Headline::parse(&grammar, "* Top").unwrap();
    let record = Clock::parse(&grammar, "CLOCK: [2022-12-12 Mon 10:45]").unwrap();
    let reader = Reader::new().with_clock(record.duplicate(), 1);
    let reader = reader.with_heading(heading, 2).with_heading(top, 4);
    let reader = reader.with_clock(record.duplicate(), 5).with_clock(record, 7);
    let (doc, warnings) = reader.finish("b.org".to_string());
    assert_eq!(doc.headlines.len(), 2);
    assert_eq!(doc.headlines[0].line, 2);
    assert_eq!(doc.headlines[0].parent, None);
    assert_eq!(doc.headlines[1].line, 4);
    assert_eq!(doc.headlines[1].parent, None);
    assert_eq!(doc.clocks.len(), 2);
    assert_eq!(doc.clocks[0].parent, 1);
    assert_eq!(doc.clocks[1].line, 7);
    assert_eq!(
        warnings,
        vec![
            ParseWarning::ClockWithoutHeading { line: 1 },
            ParseWarning::ClockAfterGap { line: 7, previous: 5 },
        ]
    );
}

#[test]
fn reading_line_by_line_is_parsing() {
    let grammar = Grammar::new().unwrap();
    let text = "* A\nCLOCK: [2022-12-12 Mon 10:45]--[2022-12-12 Mon 10:50] =>  0:05\n\n** B\nCLOCK: [2022-13-12 Mon 10:45]\n";
    let mut reader = Reader::new();
    for (i, line) in text.lines().enumerate() {
        reader = reader.read_line(&grammar, line, i + 1);
    }
    let (doc, warnings) = reader.finish("c.org".to_string());
    let (parsed, noticed) = OrgDocument::parse_with_warnings(&grammar, "c.org".to_string(), text);
    assert_eq!(doc.headlines.len(), parsed.headlines.len());
    assert_eq!(doc.clocks.len(), parsed.clocks.len());
    assert_eq!(doc.clocks[0].line, parsed.clocks[0].line);
    assert_eq!(warnings, noticed);
    assert_eq!(
        warnings,
        vec![ParseWarning::InvalidClock { line: 5, error: ClockError::InvalidStart }]
    );
}

#[test]
fn a_file_gives_its_document() {
    let grammar = Grammar::new().unwrap();
    let file = OrgFile::new("a.org".to_string(), "* A\nCLOCK: [2022-12-12 Mon 10:45]\n".to_string());
    let doc = file.document(&grammar);
    assert_eq!(doc.file, "a.org");
    assert_eq!(doc.headlines.len(), 1);
    assert_eq!(doc.clocks.len(), 1);
}
