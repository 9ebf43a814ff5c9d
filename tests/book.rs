use kosbook::page::{html_epilogue, html_prologue};
use kosbook::structure::{decimal_string, Chapter, Content, Part, Structure};

fn book() -> Structure {
    Structure {
        title: "T".to_string(),
        author: "A".to_string(),
        license: "L".to_string(),
        parts: vec![Part {
            title: "P".to_string(),
            chapters: vec![
                Chapter { title: "C1".to_string(), files: vec!["f1".to_string(), "f2".to_string()] },
                Chapter { title: "C2".to_string(), files: vec![] },
            ],
        }],
    }
}

#[test]
fn title_page_text() {
    assert_eq!(
        Content::build_title_page(&book()),
        "<div class=\"book_author\">A</div><div class=\"book_title\"><a id=\"kos_book_title\">T</a></div>\n\n<div class=\"book_license\">(C) A - L</div>\n\n"
    );
}

#[test]
fn toc_text() {
    assert_eq!(
        Content::build_toc(&book()),
        "<div class=\"toc\">\n\n- **[1 P](#kos_ref_part_1)**\n\n   - *[1.1 C1](#kos_ref_chap_1_1)*\n\n   - *[1.2 C2](#kos_ref_chap_1_2)*\n\n</div>\n\n"
    );
}

#[test]
fn chunks_of_book() {
    let texts = vec!["one".to_string(), "two".to_string()];
    let c = Content::from_structure(&book(), &texts).unwrap();
    assert_eq!(c.chunks.len(), 8);
    assert_eq!(
        c.chunks[2],
        "<div class=\"part_1\">\n\n<div class=\"part_title\"><a id=\"kos_ref_part_1\">P</a></div>\n\n"
    );
    assert_eq!(c.chunks[3], "# <a id=\"kos_ref_chap_1_1\"> C1</a>\n\n");
    assert_eq!(c.chunks[4], "one");
    assert_eq!(c.chunks[5], "two");
    assert_eq!(c.chunks[6], "# <a id=\"kos_ref_chap_1_2\"> C2</a>\n\n");
    assert_eq!(c.chunks[7], "\n\n</div>\n\n");
}

#[test]
fn chunks_need_one_text_per_file() {
    assert!(Content::from_structure(&book(), &vec!["one".to_string()]).is_none());
    let three = vec!["1".to_string(), "2".to_string(), "3".to_string()];
    assert!(Content::from_structure(&book(), &three).is_none());
}

#[test]
fn single_string_puts_blank_line_before_each_chunk() {
    let c = Content { chunks: vec!["a".to_string(), "b".to_string()] };
    assert_eq!(c.to_single_string(), "\n\na\n\nb");
    assert_eq!(Content { chunks: vec![] }.to_single_string(), "");
}

#[test]
fn title_getter() {
    assert_eq!(book().get_title(), "T");
}

#[test]
fn decimal_numbers() {
    assert_eq!(decimal_string(0), "0");
    assert_eq!(decimal_string(7), "7");
    assert_eq!(decimal_string(1203), "1203");
}

#[test]
fn page_wrapping() {
    assert_eq!(
        html_prologue("s.css", "My Book"),
        "<!DOCTYPE html>\n<html>\n<head>\n    <meta charset=\"utf-8\">\n    <meta name=\"generator\" content=\"kosbook\">\n    <title>My Book</title>\n    <link rel=\"stylesheet\" type=\"text/css\" href=\"s.css\">\n</head>\n<body>\n\n"
    );
    assert_eq!(html_epilogue(), "\n\n</body>\n</html>\n");
}
