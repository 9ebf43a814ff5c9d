//! The HTML page that wraps the rendered book.

use vstd::prelude::*;
use vstd::string::*;

verus! {

/// The head of the page up to the opening of its body.
pub open spec fn prologue(style: Seq<char>, title: Seq<char>) -> Seq<char> {
    "<!DOCTYPE html>\n<html>\n<head>\n    <meta charset=\"utf-8\">\n    <meta name=\"generator\" content=\"kosbook\">\n    <title>"@
        + title + "</title>\n    <link rel=\"stylesheet\" type=\"text/css\" href=\""@ + style
        + "\">\n</head>\n<body>\n\n"@
}

/// The end of the page after its body's content.
pub open spec fn epilogue() -> Seq<char> {
    "\n\n</body>\n</html>\n"@
}

/// The page head, with `title` and a link to the stylesheet `style`.
pub fn html_prologue(style: &str, title: &str) -> (r: String)
    ensures
        r@ == prologue(style@, title@),
{
    let mut r = String::from_str(
        "<!DOCTYPE html>\n<html>\n<head>\n    <meta charset=\"utf-8\">\n    <meta name=\"generator\" content=\"kosbook\">\n    <title>",
    );
    r.append(title);
    r.append("</title>\n    <link rel=\"stylesheet\" type=\"text/css\" href=\"");
    r.append(style);
    r.append("\">\n</head>\n<body>\n\n");
    r
}

/// The page end.
pub fn html_epilogue() -> (r: String)
    ensures
        r@ == epilogue(),
{
    String::from_str("\n\n</body>\n</html>\n")
}

} // verus!
