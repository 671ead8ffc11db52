use tools::amalg::{amalg_marker, block_docnames, split_amalgamation, split_amalgamation_lines};
use tools::config::{book_config, book_toml, oxford_series, split_metadata_entry, ConfigError};
use tools::links::{fix_link, index_ids, rewritten_link, LinkError};
use tools::mdbook::{
    chapter_depth, checked_chapter_depth, find_item_by_path, iter_items, BookItem, Chapter,
};
use tools::merge::{
    bibliography_entry, plan_html_merge, plan_latex_merge, MergeStep, Target, TexCommand,
};
use tools::quote::yaml;
use tools::strmap::StrMap;
use tools::paths::is_extension;
use tools::text::{count_occurrences, text_lines};
use tools::{match_amalg_prefix, AMALG_MAGIC};

fn chapter(name: &str, path: &str, sub_items: Vec<BookItem>) -> Chapter {
    Chapter { name: name.to_string(), path: path.to_string(), sub_items }
}

fn numbered(number: &str, name: &str, path: &str, sub_items: Vec<BookItem>) -> BookItem {
    BookItem::Chapter(number.to_string(), chapter(name, path, sub_items))
}

fn affix(name: &str, path: &str) -> BookItem {
    BookItem::Affix(chapter(name, path, vec![]))
}

fn item_path(item: &BookItem) -> Option<&str> {
    match item {
        BookItem::Chapter(_, ch) | BookItem::Affix(ch) => Some(ch.path.as_str()),
        BookItem::Spacer => None,
    }
}

fn sample_book() -> Vec<BookItem> {
    vec![
        affix("Preface", "preface.json"),
        numbered(
            "1.",
            "Chapter 1",
            "chapter-1.json",
            vec![],
        ),
        numbered(
            "2.",
            "Chapter 2",
            "chapter-2.json",
            vec![numbered("2.1.", "Section 2.1", "section-2-1.json", vec![])],
        ),
        BookItem::Spacer,
        numbered("3.", "Appendix: Tables", "tables.json", vec![]),
        affix("Epilogue", "epilogue.json"),
    ]
}

#[test]
fn yaml_wraps_in_single_quotes() {
    assert_eq!(yaml("hello"), "'hello'");
    assert_eq!(yaml(""), "''");
}

#[test]
fn yaml_triples_single_quotes() {
    assert_eq!(yaml("it's"), "'it'''s'");
    assert_eq!(yaml("'"), "'''''");
}

#[test]
fn chapter_depth_counts_dots() {
    assert_eq!(chapter_depth("1."), 0);
    assert_eq!(chapter_depth("2.3."), 1);
    assert_eq!(chapter_depth("4.1.2."), 2);
}

#[test]
fn checked_chapter_depth_refuses_numbers_without_dot() {
    assert_eq!(checked_chapter_depth("1"), None);
    assert_eq!(checked_chapter_depth(""), None);
    assert_eq!(checked_chapter_depth("2.1."), Some(1));
}

#[test]
fn iter_items_visits_nested_items_before_siblings() {
    let book = sample_book();
    let paths: Vec<Option<&str>> = iter_items(&book).into_iter().map(item_path).collect();
    assert_eq!(
        paths,
        vec![
            Some("preface.json"),
            Some("chapter-1.json"),
            Some("chapter-2.json"),
            Some("section-2-1.json"),
            None,
            Some("tables.json"),
            Some("epilogue.json"),
        ]
    );
}

#[test]
fn iter_items_of_empty_book() {
    assert!(iter_items(&vec![]).is_empty());
}

#[test]
fn find_item_by_path_finds_nested_chapter() {
    let book = sample_book();
    let found = find_item_by_path(&book, "section-2-1.json").unwrap();
    assert_eq!(item_path(found), Some("section-2-1.json"));
    match found {
        BookItem::Chapter(number, ch) => {
            assert_eq!(number, "2.1.");
            assert_eq!(ch.name, "Section 2.1");
        }
        _ => panic!("expected a chapter"),
    }
}

#[test]
fn find_item_by_path_compares_paths_by_components() {
    let book = vec![affix("Preface", "src/preface.json")];
    assert!(find_item_by_path(&book, "src/./preface.json").is_some());
    assert!(find_item_by_path(&book, "src//preface.json").is_some());
}

#[test]
fn find_item_by_path_misses() {
    let book = sample_book();
    assert!(find_item_by_path(&book, "missing.json").is_none());
}

#[test]
fn amalg_marker_format() {
    assert_eq!(
        amalg_marker("chapter-1.html"),
        format!("<!-- {} chapter-1.html -->", AMALG_MAGIC)
    );
}

#[test]
fn marker_reads_back_its_name() {
    for name in ["a.html", "", "dir/with space.html", " -->"] {
        let marker = amalg_marker(name);
        assert_eq!(match_amalg_prefix(&marker), Some(name));
    }
}

#[test]
fn match_amalg_prefix_ignores_other_lines() {
    assert_eq!(match_amalg_prefix("<p>text</p>"), None);
    assert_eq!(match_amalg_prefix("<!-- other comment -->"), None);
    assert_eq!(match_amalg_prefix(""), None);
}

#[test]
fn block_docnames_follow_markers() {
    let html = |t: &str| Some(("html".to_string(), t.to_string()));
    let blocks = vec![
        html(&amalg_marker("a.html")),
        None,
        html("<b>raw</b>"),
        html(&amalg_marker("b.html")),
        Some(("tex".to_string(), amalg_marker("c.html"))),
    ];
    assert_eq!(
        block_docnames(&blocks),
        Some(vec![
            None,
            Some("a.html".to_string()),
            Some("a.html".to_string()),
            None,
            Some("b.html".to_string()),
        ])
    );
}

#[test]
fn block_docnames_refuses_block_before_first_marker() {
    let blocks = vec![None, Some(("html".to_string(), amalg_marker("a.html")))];
    assert_eq!(block_docnames(&blocks), None);
}

#[test]
fn split_amalgamation_recovers_documents() {
    let text = format!(
        "{}\n<p>one</p>\n<p>two</p>\n{}\n{}\n<p>three</p>\n",
        amalg_marker("a.html"),
        amalg_marker("empty.html"),
        amalg_marker("b.html")
    );
    assert_eq!(
        split_amalgamation(&text),
        Some(vec![
            ("a.html".to_string(), "<p>one</p>\n<p>two</p>\n".to_string()),
            ("empty.html".to_string(), String::new()),
            ("b.html".to_string(), "<p>three</p>\n".to_string()),
        ])
    );
}

#[test]
fn split_amalgamation_refuses_text_before_first_marker() {
    assert_eq!(split_amalgamation("<p>stray</p>\n"), None);
    assert_eq!(split_amalgamation(""), Some(vec![]));
}

#[test]
fn split_amalgamation_lines_takes_given_lines() {
    let lines = vec![amalg_marker("x.html"), "a".to_string(), "b".to_string()];
    assert_eq!(
        split_amalgamation_lines(&lines),
        Some(vec![("x.html".to_string(), "a\nb\n".to_string())])
    );
}

#[test]
fn split_amalgamation_cuts_lines_like_str_lines() {
    let text = format!("{}\r\na\r\n\nb", amalg_marker("x.html"));
    assert_eq!(
        split_amalgamation(&text),
        Some(vec![("x.html".to_string(), "a\n\nb\n".to_string())])
    );
}

fn sample_index() -> StrMap {
    index_ids(&vec![
        ("intro".to_string(), "ch/a.html".to_string()),
        ("".to_string(), "ch/a.html".to_string()),
        ("results".to_string(), "ch/b.html".to_string()),
        ("deep".to_string(), "ch/sub/c.html".to_string()),
        ("elsewhere".to_string(), "other/d.html".to_string()),
    ])
}

#[test]
fn index_ids_skips_empty_ids_and_keeps_last_document() {
    let index = index_ids(&vec![
        ("x".to_string(), "a.html".to_string()),
        ("".to_string(), "b.html".to_string()),
        ("x".to_string(), "c.html".to_string()),
    ]);
    assert_eq!(index.len(), 1);
    assert_eq!(index.get(&"x".to_string()), Some(&"c.html".to_string()));
    assert_eq!(index.get(&"".to_string()), None);
}

#[test]
fn fix_link_to_sibling_document() {
    let index = sample_index();
    assert_eq!(
        fix_link(&index, "ch/a.html", "#results"),
        Ok(Some("b.html#results".to_string()))
    );
    assert_eq!(
        fix_link(&index, "ch/a.html", "#deep"),
        Ok(Some("sub/c.html#deep".to_string()))
    );
}

#[test]
fn fix_link_leaves_same_document_and_unknown_links() {
    let index = sample_index();
    assert_eq!(fix_link(&index, "ch/a.html", "#intro"), Ok(None));
    assert_eq!(fix_link(&index, "ch/a.html", "#nowhere"), Ok(None));
    assert_eq!(fix_link(&index, "ch/a.html", "https://example.org/#results"), Ok(None));
    assert_eq!(fix_link(&index, "ch/a.html", ""), Ok(None));
}

#[test]
fn fix_link_errors() {
    let index = sample_index();
    assert_eq!(
        fix_link(&index, "ch/a.html", "#elsewhere"),
        Err(LinkError::NotUnderDirectory)
    );
    assert_eq!(fix_link(&index, "", "#intro"), Err(LinkError::NoParent));
}

#[test]
fn fix_link_from_top_level_document() {
    // the parent of a top-level document is the empty path
    let index = sample_index();
    assert_eq!(
        fix_link(&index, "top.html", "#results"),
        Ok(Some("ch/b.html#results".to_string()))
    );
}

#[test]
fn plan_html_merge_replaces_extensions() {
    let book = vec![affix("Notes", "dir/notes.md"), affix("Data", "dir/data")];
    let (summary, docs) = plan_html_merge(&book, "htm", "html").unwrap();
    assert_eq!(summary, "[Notes](dir/notes.htm)\n[Data](dir/data.htm)\n");
    assert_eq!(
        docs,
        vec![
            ("dir/notes.md".to_string(), "dir/notes.html".to_string()),
            ("dir/data".to_string(), "dir/data.html".to_string()),
        ]
    );
}

#[test]
fn oxford_series_of_one_two_three() {
    let s = |v: &[&str]| oxford_series(&v.iter().map(|x| x.to_string()).collect());
    assert_eq!(s(&[]), "");
    assert_eq!(s(&["Ann"]), "Ann");
    assert_eq!(s(&["Ann", "Bob"]), ", Ann and Bob");
    assert_eq!(s(&["Ann", "Bob", "Cy"]), ", Ann, Bob, and Cy");
}

#[test]
fn split_metadata_entry_needs_one_equals_sign() {
    assert_eq!(
        split_metadata_entry("title=My book"),
        Some(("title".to_string(), "My book".to_string()))
    );
    assert_eq!(split_metadata_entry("key="), Some(("key".to_string(), String::new())));
    assert_eq!(split_metadata_entry("title"), None);
    assert_eq!(split_metadata_entry("a=b=c"), None);
}

#[test]
fn book_config_collects_authors_and_dest() {
    let metadata = vec![
        "title=My book".to_string(),
        "author=Ann".to_string(),
        "dest=ignored".to_string(),
        "author=Bob".to_string(),
    ];
    let config = book_config("out", &metadata).unwrap();
    assert_eq!(config.len(), 3);
    assert_eq!(config.get(&"title".to_string()), Some(&"My book".to_string()));
    assert_eq!(config.get(&"author".to_string()), Some(&", Ann and Bob".to_string()));
    assert_eq!(config.get(&"dest".to_string()), Some(&"out".to_string()));
}

#[test]
fn book_config_refuses_malformed_entry() {
    let metadata = vec!["title=x".to_string(), "oops".to_string()];
    assert!(matches!(book_config("out", &metadata), Err(ConfigError::MalformedMetadata)));
}

#[test]
fn book_toml_writes_sorted_table() {
    let metadata = vec!["title=My book".to_string(), "author=Ann".to_string()];
    assert_eq!(
        book_toml("target/html", &metadata),
        Ok("author = \"Ann\"\ndest = \"target/html\"\ntitle = \"My book\"\n".to_string())
    );
    assert_eq!(book_toml("d", &vec!["x".to_string()]), Err(ConfigError::MalformedMetadata));
}

#[test]
fn strmap_insert_replaces() {
    let mut m = StrMap::new();
    assert_eq!(m.len(), 0);
    m.insert("k".to_string(), "v1".to_string());
    m.insert("j".to_string(), "w".to_string());
    m.insert("k".to_string(), "v2".to_string());
    assert_eq!(m.len(), 2);
    assert_eq!(m.get(&"k".to_string()), Some(&"v2".to_string()));
    assert_eq!(m.get(&"j".to_string()), Some(&"w".to_string()));
    assert_eq!(m.get(&"z".to_string()), None);
}

#[test]
fn count_occurrences_counts() {
    assert_eq!(count_occurrences("a.b.c.", '.'), 3);
    assert_eq!(count_occurrences("", '.'), 0);
}

#[test]
fn plan_latex_merge_places_parts() {
    let book = sample_book();
    let steps = plan_latex_merge(&book, &vec![]).unwrap();
    let inc = |t: Target, p: &str, s: i64| MergeStep::Include(t, p.to_string(), s);
    assert_eq!(
        steps,
        vec![
            inc(Target::Before, "preface.json", 0),
            MergeStep::Raw(Target::Main, TexCommand::MainMatter),
            inc(Target::Main, "chapter-1.json", 0),
            inc(Target::Main, "chapter-2.json", 0),
            inc(Target::Main, "section-2-1.json", 1),
            MergeStep::Raw(Target::Main, TexCommand::Appendix),
            inc(Target::Main, "tables.json", 0),
            MergeStep::Raw(Target::After, TexCommand::BackMatter),
            inc(Target::After, "epilogue.json", 0),
        ]
    );
}

#[test]
fn plan_latex_merge_front_in_body() {
    let book = vec![affix("Preface", "preface.json"), affix("Foreword", "foreword.json")];
    let steps = plan_latex_merge(&book, &vec!["preface.md".to_string()]).unwrap();
    assert_eq!(
        steps,
        vec![
            MergeStep::Include(Target::Main, "preface.json".to_string(), 0),
            MergeStep::Include(Target::Before, "foreword.json".to_string(), 0),
        ]
    );
}

#[test]
fn plan_latex_merge_refuses_bad_number() {
    let book = vec![numbered("1", "One", "one.json", vec![])];
    assert_eq!(plan_latex_merge(&book, &vec![]), None);
}

#[test]
fn latex_commands_text() {
    assert_eq!(TexCommand::MainMatter.text(), "\\mainmatter");
    assert_eq!(TexCommand::Appendix.text(), "\\appendix");
    assert_eq!(TexCommand::BackMatter.text(), "\\backmatter");
}

#[test]
fn plan_html_merge_writes_summary() {
    let book = sample_book();
    let (summary, docs) = plan_html_merge(&book, "htm", "html").unwrap();
    assert_eq!(
        summary,
        "[Preface](preface.htm)\n\
         - [Chapter 1](chapter-1.htm)\n\
         - [Chapter 2](chapter-2.htm)\n    \
         - [Section 2.1](section-2-1.htm)\n\
         ---\
         - [Appendix: Tables](tables.htm)\n\
         [Epilogue](epilogue.htm)\n"
    );
    assert_eq!(docs.len(), 6);
    assert_eq!(docs[0], ("preface.json".to_string(), "preface.html".to_string()));
    assert_eq!(docs[3], ("section-2-1.json".to_string(), "section-2-1.html".to_string()));
}

#[test]
fn plan_html_merge_refuses_bad_number() {
    let book = vec![numbered("x", "One", "one.json", vec![])];
    assert_eq!(plan_html_merge(&book, "htm", "html"), None);
}

#[test]
fn bibliography_entry_default_and_given_title() {
    assert_eq!(bibliography_entry(false, None, "biblio", "htm", "html"), None);
    assert_eq!(
        bibliography_entry(true, None, "biblio", "htm", "html"),
        Some((
            "Bibliography".to_string(),
            "[Bibliography](biblio.htm)\n".to_string(),
            "biblio.html".to_string()
        ))
    );
    assert_eq!(
        bibliography_entry(true, Some("References".to_string()), "biblio.md", "htm", "html"),
        Some((
            "References".to_string(),
            "[References](biblio.htm)\n".to_string(),
            "biblio.html".to_string()
        ))
    );
}

#[test]
fn text_lines_cuts_like_str_lines() {
    for text in ["", "a", "a\n", "a\r\nb", "\n\n", "a\r", "x\r\r\ny\n\nz\r\n", "\r\n"] {
        let expected: Vec<String> = text.lines().map(|l| l.to_string()).collect();
        assert_eq!(text_lines(text), expected, "text {:?}", text);
    }
}

#[test]
fn is_extension_refuses_separators() {
    assert!(is_extension("html"));
    assert!(is_extension(""));
    assert!(!is_extension("a/b"));
    assert!(!is_extension("a\\b"));
}

#[test]
fn rewritten_link_cases() {
    assert_eq!(
        rewritten_link("#x", "ch/a.html", "ch/b.html", Some("ch"), Some("b.html")),
        Ok(Some("b.html#x".to_string()))
    );
    assert_eq!(rewritten_link("#x", "ch/a.html", "ch/a.html", Some("ch"), None), Ok(None));
    assert_eq!(
        rewritten_link("#x", "ch/a.html", "d/b.html", Some("ch"), None),
        Err(LinkError::NotUnderDirectory)
    );
    assert_eq!(
        rewritten_link("#x", "", "b.html", None, Some("b.html")),
        Err(LinkError::NoParent)
    );
}

#[test]
fn latex_plan_ignores_spacers() {
    let with_spacers = vec![
        BookItem::Spacer,
        affix("Preface", "preface.json"),
        numbered(
            "1.",
            "One",
            "one.json",
            vec![BookItem::Spacer, numbered("1.1.", "Sub", "sub.json", vec![])],
        ),
        BookItem::Spacer,
        affix("End", "end.json"),
    ];
    let without_spacers = vec![
        affix("Preface", "preface.json"),
        numbered("1.", "One", "one.json", vec![numbered("1.1.", "Sub", "sub.json", vec![])]),
        affix("End", "end.json"),
    ];
    assert_eq!(
        plan_latex_merge(&with_spacers, &vec![]),
        plan_latex_merge(&without_spacers, &vec![])
    );
}

#[test]
fn block_docnames_of_merged_documents() {
    // two documents of two and one blocks, put together as html-merge does
    let html = |t: String| Some(("html".to_string(), t));
    let blocks = vec![
        html(amalg_marker("a.html")),
        None,
        html("<hr>".to_string()),
        html(amalg_marker("b.html")),
        None,
    ];
    let a = Some("a.html".to_string());
    let b = Some("b.html".to_string());
    assert_eq!(block_docnames(&blocks), Some(vec![None, a.clone(), a, None, b]));
}

#[test]
fn split_text_of_merged_documents() {
    let docs = [("a.html", vec!["<p>1</p>", "<p>2</p>"]), ("b.html", vec![]), ("c.html", vec![""])];
    let mut text = String::new();
    for (name, lines) in &docs {
        text += &amalg_marker(name);
        text += "\n";
        for line in lines {
            text += line;
            text += "\n";
        }
    }
    let expected: Vec<(String, String)> = docs
        .iter()
        .map(|(n, ls)| (n.to_string(), ls.iter().map(|l| format!("{}\n", l)).collect()))
        .collect();
    assert_eq!(split_amalgamation(&text), Some(expected));
}

#[test]
fn yaml_is_one_to_one_on_examples() {
    let inputs = ["", "'", "''", "'''", "a", "a'", "'a", "a''b", "a'''b"];
    for (i, x) in inputs.iter().enumerate() {
        for (j, y) in inputs.iter().enumerate() {
            assert_eq!(yaml(x) == yaml(y), i == j, "{:?} {:?}", x, y);
        }
    }
}
