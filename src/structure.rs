//! The book's structure (parts, chapters, files) and its content as an
//! ordered list of text chunks: a title page, a table of contents, then
//! each part with its chapters and the texts of their files.

use vstd::prelude::*;
use vstd::string::*;
use crate::store::push_deep;

verus! {

/// A chapter: its title and the files that hold its text, in order.
pub struct Chapter {
    pub title: String,
    pub files: Vec<String>,
}

/// A part: its title and its chapters.
pub struct Part {
    pub title: String,
    pub chapters: Vec<Chapter>,
}

/// The book: title, author, license and parts.
pub struct Structure {
    pub title: String,
    pub author: String,
    pub license: String,
    pub parts: Vec<Part>,
}

/// The text of a document, as ordered chunks.
pub struct Content {
    pub chunks: Vec<String>,
}

impl Content {
    pub open spec fn view(&self) -> Seq<Seq<char>> {
        self.chunks.deep_view()
    }
}

pub open spec fn digit_char(d: nat) -> char {
    seq!['0', '1', '2', '3', '4', '5', '6', '7', '8', '9'][d as int]
}

/// The decimal digits of `n`.
pub open spec fn decimal(n: nat) -> Seq<char>
    decreases n,
{
    if n < 10 {
        seq![digit_char(n)]
    } else {
        decimal(n / 10) + seq![digit_char(n % 10)]
    }
}

fn digit_str(d: usize) -> (r: &'static str)
    requires
        d < 10,
    ensures
        r@ == seq![digit_char(d as nat)],
{
    proof {
        reveal_strlit("0");
        reveal_strlit("1");
        reveal_strlit("2");
        reveal_strlit("3");
        reveal_strlit("4");
        reveal_strlit("5");
        reveal_strlit("6");
        reveal_strlit("7");
        reveal_strlit("8");
        reveal_strlit("9");
    }
    let r = if d == 0 {
        "0"
    } else if d == 1 {
        "1"
    } else if d == 2 {
        "2"
    } else if d == 3 {
        "3"
    } else if d == 4 {
        "4"
    } else if d == 5 {
        "5"
    } else if d == 6 {
        "6"
    } else if d == 7 {
        "7"
    } else if d == 8 {
        "8"
    } else {
        "9"
    };
    assert(r@ =~= seq![digit_char(d as nat)]);
    r
}

/// `n` written in decimal.
pub fn decimal_string(n: usize) -> (r: String)
    ensures
        r@ == decimal(n as nat),
    decreases n,
{
    if n < 10 {
        String::from_str(digit_str(n))
    } else {
        let mut r = decimal_string(n / 10);
        r.append(digit_str(n % 10));
        r
    }
}

/// The title page.
pub open spec fn title_page(st: Structure) -> Seq<char> {
    "<div class=\"book_author\">"@ + st.author@ + "</div><div class=\"book_title\"><a id=\"kos_book_title\">"@
        + st.title@ + "</a></div>\n\n<div class=\"book_license\">(C) "@ + st.author@ + " - "@ + st.license@
        + "</div>\n\n"@
}

/// The entry of part number `pi` in the table of contents.
pub open spec fn part_entry(p: Part, pi: nat) -> Seq<char> {
    "- **["@ + decimal(pi) + " "@ + p.title@ + "](#kos_ref_part_"@ + decimal(pi) + ")**\n\n"@
}

/// The entry of chapter `ci` of part `pi` in the table of contents.
pub open spec fn chapter_entry(c: Chapter, pi: nat, ci: nat) -> Seq<char> {
    "   - *["@ + decimal(pi) + "."@ + decimal(ci) + " "@ + c.title@ + "](#kos_ref_chap_"@ + decimal(pi) + "_"@
        + decimal(ci) + ")*\n\n"@
}

/// The entries of the first `n` chapters of part `pi`.
pub open spec fn chapter_entries(p: Part, pi: nat, n: nat) -> Seq<char>
    decreases n,
{
    if n == 0 {
        Seq::empty()
    } else {
        chapter_entries(p, pi, (n - 1) as nat) + chapter_entry(p.chapters@[n - 1], pi, n)
    }
}

/// The entries of the first `n` parts, each followed by its chapters.
pub open spec fn toc_entries(parts: Seq<Part>, n: nat) -> Seq<char>
    decreases n,
{
    if n == 0 {
        Seq::empty()
    } else {
        toc_entries(parts, (n - 1) as nat) + part_entry(parts[n - 1], n) + chapter_entries(
            parts[n - 1],
            n,
            parts[n - 1].chapters.len() as nat,
        )
    }
}

/// The table of contents.
pub open spec fn toc(st: Structure) -> Seq<char> {
    "<div class=\"toc\">\n\n"@ + toc_entries(st.parts@, st.parts.len() as nat) + "</div>\n\n"@
}

fn part_entry_string(part: &Part, pi: usize) -> (r: String)
    ensures
        r@ == part_entry(*part, pi as nat),
{
    let num = decimal_string(pi);
    let mut r = String::from_str("- **[");
    r.append(num.as_str());
    r.append(" ");
    r.append(part.title.as_str());
    r.append("](#kos_ref_part_");
    r.append(num.as_str());
    r.append(")**\n\n");
    r
}

fn chapter_entry_string(chap: &Chapter, pi: usize, ci: usize) -> (r: String)
    ensures
        r@ == chapter_entry(*chap, pi as nat, ci as nat),
{
    let num = decimal_string(pi);
    let cnum = decimal_string(ci);
    let mut r = String::from_str("   - *[");
    r.append(num.as_str());
    r.append(".");
    r.append(cnum.as_str());
    r.append(" ");
    r.append(chap.title.as_str());
    r.append("](#kos_ref_chap_");
    r.append(num.as_str());
    r.append("_");
    r.append(cnum.as_str());
    r.append(")*\n\n");
    r
}

/// The opening of part number `pi`: its div and its title.
pub open spec fn part_header(p: Part, pi: nat) -> Seq<char> {
    "<div class=\"part_"@ + decimal(pi) + "\">\n\n<div class=\"part_title\"><a id=\"kos_ref_part_"@ + decimal(pi)
        + "\">"@ + p.title@ + "</a></div>\n\n"@
}

/// The heading of chapter `ci` of part `pi`.
pub open spec fn chapter_header(c: Chapter, pi: nat, ci: nat) -> Seq<char> {
    "# <a id=\"kos_ref_chap_"@ + decimal(pi) + "_"@ + decimal(ci) + "\"> "@ + c.title@ + "</a>\n\n"@
}

/// The chunk that closes a part.
pub open spec fn part_close() -> Seq<char> {
    "\n\n</div>\n\n"@
}

/// The number of files in the first `n` chapters of `p`.
pub open spec fn chapter_file_count(p: Part, n: nat) -> nat
    decreases n,
{
    if n == 0 {
        0
    } else {
        (chapter_file_count(p, (n - 1) as nat) + p.chapters@[n - 1].files.len()) as nat
    }
}

/// The number of files in the first `n` parts.
pub open spec fn parts_file_count(parts: Seq<Part>, n: nat) -> nat
    decreases n,
{
    if n == 0 {
        0
    } else {
        parts_file_count(parts, (n - 1) as nat) + chapter_file_count(parts[n - 1], parts[n - 1].chapters.len() as nat)
    }
}

/// The number of files in the book.
pub open spec fn file_count(st: Structure) -> nat {
    parts_file_count(st.parts@, st.parts.len() as nat)
}

/// The chunks of the first `n` chapters of part `pi`, whose file texts
/// begin at `texts[start]`.
pub open spec fn chapter_chunks(p: Part, pi: nat, texts: Seq<Seq<char>>, start: int, n: nat) -> Seq<Seq<char>>
    decreases n,
{
    if n == 0 {
        Seq::empty()
    } else {
        chapter_chunks(p, pi, texts, start, (n - 1) as nat) + seq![chapter_header(p.chapters@[n - 1], pi, n)]
            + texts.subrange(start + chapter_file_count(p, (n - 1) as nat), start + chapter_file_count(p, n))
    }
}

/// The chunks of the first `n` parts.
pub open spec fn part_chunks(parts: Seq<Part>, texts: Seq<Seq<char>>, n: nat) -> Seq<Seq<char>>
    decreases n,
{
    if n == 0 {
        Seq::empty()
    } else {
        part_chunks(parts, texts, (n - 1) as nat) + seq![part_header(parts[n - 1], n)] + chapter_chunks(
            parts[n - 1],
            n,
            texts,
            parts_file_count(parts, (n - 1) as nat) as int,
            parts[n - 1].chapters.len() as nat,
        ) + seq![part_close()]
    }
}

/// All chunks of the book, given the texts of its files in order.
pub open spec fn book_chunks(st: Structure, texts: Seq<Seq<char>>) -> Seq<Seq<char>> {
    seq![title_page(st), toc(st)] + part_chunks(st.parts@, texts, st.parts.len() as nat)
}

/// The chunks joined, each after a blank line.
pub open spec fn single_string(chunks: Seq<Seq<char>>) -> Seq<char>
    decreases chunks.len(),
{
    if chunks.len() == 0 {
        Seq::empty()
    } else {
        single_string(chunks.drop_last()) + "\n\n"@ + chunks.last()
    }
}

proof fn lemma_chapter_count_monotone(p: Part, a: nat, b: nat)
    requires
        a <= b,
    ensures
        chapter_file_count(p, a) <= chapter_file_count(p, b),
    decreases b - a,
{
    if a < b {
        lemma_chapter_count_monotone(p, a, (b - 1) as nat);
    }
}

proof fn lemma_parts_count_monotone(parts: Seq<Part>, a: nat, b: nat)
    requires
        a <= b,
    ensures
        parts_file_count(parts, a) <= parts_file_count(parts, b),
    decreases b - a,
{
    if a < b {
        lemma_parts_count_monotone(parts, a, (b - 1) as nat);
    }
}

fn part_header_string(part: &Part, pi: usize) -> (r: String)
    ensures
        r@ == part_header(*part, pi as nat),
{
    let num = decimal_string(pi);
    let mut r = String::from_str("<div class=\"part_");
    r.append(num.as_str());
    r.append("\">\n\n<div class=\"part_title\"><a id=\"kos_ref_part_");
    r.append(num.as_str());
    r.append("\">");
    r.append(part.title.as_str());
    r.append("</a></div>\n\n");
    r
}

fn chapter_header_string(chap: &Chapter, pi: usize, ci: usize) -> (r: String)
    ensures
        r@ == chapter_header(*chap, pi as nat, ci as nat),
{
    let mut r = String::from_str("# <a id=\"kos_ref_chap_");
    let num = decimal_string(pi);
    r.append(num.as_str());
    r.append("_");
    let cnum = decimal_string(ci);
    r.append(cnum.as_str());
    r.append("\"> ");
    r.append(chap.title.as_str());
    r.append("</a>\n\n");
    r
}

impl Structure {
    /// The book's title.
    pub fn get_title(&self) -> (r: &str)
        ensures
            r@ == self.title@,
    {
        self.title.as_str()
    }
}

impl Content {
    /// The title page: author, title, and license line.
    pub fn build_title_page(st: &Structure) -> (r: String)
        ensures
            r@ == title_page(*st),
    {
        let mut r = String::from_str("<div class=\"book_author\">");
        r.append(st.author.as_str());
        r.append("</div><div class=\"book_title\"><a id=\"kos_book_title\">");
        r.append(st.title.as_str());
        r.append("</a></div>\n\n<div class=\"book_license\">(C) ");
        r.append(st.author.as_str());
        r.append(" - ");
        r.append(st.license.as_str());
        r.append("</div>\n\n");
        r
    }

    /// The table of contents: one linked entry per part and per chapter,
    /// numbered from 1.
    pub fn build_toc(st: &Structure) -> (r: String)
        ensures
            r@ == toc(*st),
    {
        let mut r = String::from_str("<div class=\"toc\">\n\n");
        let ghost head = r@;
        let mut pi: usize = 0;
        while pi < st.parts.len()
            invariant
                pi <= st.parts.len(),
                r@ == head + toc_entries(st.parts@, pi as nat),
            decreases st.parts.len() - pi,
        {
            let part = &st.parts[pi];
            let entry = part_entry_string(part, pi + 1);
            r.append(entry.as_str());
            let ghost mid = r@;
            let mut ci: usize = 0;
            while ci < part.chapters.len()
                invariant
                    pi < st.parts.len(),
                    *part == st.parts@[pi as int],
                    ci <= part.chapters.len(),
                    r@ == mid + chapter_entries(*part, (pi + 1) as nat, ci as nat),
                decreases part.chapters.len() - ci,
            {
                let entry = chapter_entry_string(&part.chapters[ci], pi + 1, ci + 1);
                r.append(entry.as_str());
                assert(r@ =~= mid + chapter_entries(*part, (pi + 1) as nat, (ci + 1) as nat));
                ci = ci + 1;
            }
            assert(r@ =~= head + toc_entries(st.parts@, (pi + 1) as nat));
            pi = pi + 1;
        }
        r.append("</div>\n\n");
        r
    }

    /// The chunks of the book: title page, table of contents, then for each
    /// part its opening, and for each of its chapters the heading followed
    /// by the texts of the chapter's files, then the part's closing chunk.
    /// `texts` holds the files' texts in the order in which the structure
    /// lists them; `None` where their number is not the number of files.
    pub fn build_chunks(st: &Structure, texts: &Vec<String>) -> (r: Option<Vec<String>>)
        ensures
            r is Some <==> texts.len() == file_count(*st),
            r matches Some(c) ==> c.deep_view() == book_chunks(*st, texts.deep_view()),
    {
        let ghost tv = texts.deep_view();
        let ghost parts = st.parts@;
        let mut chunks: Vec<String> = Vec::new();
        push_deep(&mut chunks, Content::build_title_page(st));
        push_deep(&mut chunks, Content::build_toc(st));
        let ghost head = chunks.deep_view();
        assert(head =~= seq![title_page(*st), toc(*st)]);
        assert(part_chunks(parts, tv, 0) =~= Seq::<Seq<char>>::empty());
        let mut next: usize = 0;
        let mut pi: usize = 0;
        while pi < st.parts.len()
            invariant
                pi <= st.parts.len(),
                parts == st.parts@,
                tv == texts.deep_view(),
                next == parts_file_count(parts, pi as nat),
                next <= texts.len(),
                chunks.deep_view() =~= head + part_chunks(parts, tv, pi as nat),
            decreases st.parts.len() - pi,
        {
            let part = &st.parts[pi];
            let ghost start = next as int;
            push_deep(&mut chunks, part_header_string(part, pi + 1));
            let ghost mid = chunks.deep_view();
            assert(chapter_chunks(*part, (pi + 1) as nat, tv, start, 0) =~= Seq::<Seq<char>>::empty());
            let mut ci: usize = 0;
            while ci < part.chapters.len()
                invariant
                    pi < st.parts.len(),
                    parts == st.parts@,
                    *part == parts[pi as int],
                    tv == texts.deep_view(),
                    start == parts_file_count(parts, pi as nat),
                    ci <= part.chapters.len(),
                    next == start + chapter_file_count(*part, ci as nat),
                    next <= texts.len(),
                    chunks.deep_view() =~= mid + chapter_chunks(*part, (pi + 1) as nat, tv, start, ci as nat),
                decreases part.chapters.len() - ci,
            {
                let chap = &part.chapters[ci];
                push_deep(&mut chunks, chapter_header_string(chap, pi + 1, ci + 1));
                if chap.files.len() > texts.len() - next {
                    proof {
                        lemma_chapter_count_monotone(*part, (ci + 1) as nat, part.chapters.len() as nat);
                        lemma_parts_count_monotone(parts, (pi + 1) as nat, parts.len());
                    }
                    return None;
                }
                let ghost before = chunks.deep_view();
                let mut f: usize = 0;
                while f < chap.files.len()
                    invariant
                        f <= chap.files.len(),
                        next + chap.files.len() <= texts.len(),
                        tv == texts.deep_view(),
                        chunks.deep_view() =~= before + tv.subrange(next as int, next + f),
                    decreases chap.files.len() - f,
                {
                    push_deep(&mut chunks, texts[next + f].clone());
                    assert(tv.subrange(next as int, next + f + 1) =~= tv.subrange(next as int, next + f).push(
                        tv[next + f],
                    ));
                    f = f + 1;
                }
                next = next + chap.files.len();
                ci = ci + 1;
            }
            push_deep(&mut chunks, String::from_str("\n\n</div>\n\n"));
            pi = pi + 1;
        }
        if next != texts.len() {
            return None;
        }
        Some(chunks)
    }

    /// The content of the book whose files hold `texts`, in the order in
    /// which the structure lists them.
    pub fn from_structure(st: &Structure, texts: &Vec<String>) -> (r: Option<Content>)
        ensures
            r is Some <==> texts.len() == file_count(*st),
            r matches Some(c) ==> c@ == book_chunks(*st, texts.deep_view()),
    {
        match Content::build_chunks(st, texts) {
            Some(chunks) => Some(Content { chunks }),
            None => None,
        }
    }

    /// All chunks in one text, each after a blank line.
    pub fn to_single_string(&self) -> (r: String)
        ensures
            r@ == single_string(self@),
    {
        let ghost d = self@;
        let mut r = String::new();
        let mut i: usize = 0;
        assert(d.take(0) =~= Seq::<Seq<char>>::empty());
        while i < self.chunks.len()
            invariant
                i <= self.chunks.len(),
                d == self@,
                r@ == single_string(d.take(i as int)),
            decreases self.chunks.len() - i,
        {
            r.append("\n\n");
            r.append(self.chunks[i].as_str());
            assert(d.take(i + 1).drop_last() =~= d.take(i as int));
            i = i + 1;
        }
        assert(d.take(d.len() as int) =~= d);
        r
    }
}

} // verus!
