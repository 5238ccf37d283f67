//! Documents: text with line breaks, indentation and alternative layouts.

use vstd::prelude::*;
use vstd::string::StrSliceExecFns;

verus! {

/// The display width of a character, `None` for control characters.
pub uninterp spec fn unicode_char_width(c: char) -> Option<usize>;

/// The display width of a string.
pub uninterp spec fn unicode_str_width(s: Seq<char>) -> usize;

/// `UnicodeWidthChar::width` of the `unicode-width` crate: the columns `c`
/// takes, `None` for a control character. The result is named, not stated.
#[verifier::external_body]
fn char_width(c: char) -> (r: Option<usize>)
    ensures
        r == unicode_char_width(c),
{
    unicode_width::UnicodeWidthChar::width(c)
}

/// `UnicodeWidthStr::width` of the `unicode-width` crate: the columns `s`
/// takes. The result is named, not stated.
#[verifier::external_body]
fn str_width(s: &str) -> (r: usize)
    ensures
        r == unicode_str_width(s@),
{
    unicode_width::UnicodeWidthStr::width(s)
}

/// A document to lay out.
#[derive(Debug)]
pub enum Document {
    /// Nothing.
    Empty,
    /// A line break.
    Newline,
    /// A character and its width.
    Char(char, u32),
    /// A text and its width.
    Text(String, u32),
    /// The document laid out on one line wherever it has a choice.
    Flatten(Box<Document>),
    /// The document with its lines indented by a number of columns.
    Indent(u32, Box<Document>),
    /// One document after the other.
    Concat(Box<Document>, Box<Document>),
    /// The first document where it fits, else the second.
    Choice(Box<Document>, Box<Document>),
}

/// Whether the document starts with a line break.
pub open spec fn leading_newline(d: Document) -> bool
    decreases d,
{
    match d {
        Document::Newline => true,
        Document::Char(c, _) => c == '\n' || c == '\r',
        Document::Empty | Document::Choice(..) => false,
        Document::Text(s, _) => s@.len() > 0 && (s@[0] == '\n' || s@[0] == '\r'),
        Document::Flatten(x) => leading_newline(*x),
        Document::Indent(_, x) => leading_newline(*x),
        Document::Concat(a, b) => if *a is Empty { leading_newline(*b) } else { leading_newline(*a) },
    }
}

/// The text of a document, line breaks as `'\n'`, each choice by its first
/// alternative.
pub open spec fn doc_text(d: Document) -> Seq<char>
    decreases d,
{
    match d {
        Document::Empty => Seq::empty(),
        Document::Newline => seq!['\n'],
        Document::Char(c, _) => seq![c],
        Document::Text(s, _) => s@,
        Document::Flatten(x) => doc_text(*x),
        Document::Indent(_, x) => doc_text(*x),
        Document::Concat(a, b) => doc_text(*a) + doc_text(*b),
        Document::Choice(a, _) => doc_text(*a),
    }
}

/// A line without its final carriage return, if it has one.
pub open spec fn strip_cr(line: Seq<char>) -> Seq<char> {
    if line.len() > 0 && line[line.len() - 1] == '\r' { line.drop_last() } else { line }
}

/// The lines of `s` from position `start`, `s[start..i]` holding no line feed:
/// each line ended by a line feed loses a final carriage return; a last line
/// is there only when it is not empty.
pub open spec fn lines_from(s: Seq<char>, start: int, i: int) -> Seq<Seq<char>>
    decreases s.len() - i,
{
    if i >= s.len() {
        if start < s.len() { seq![s.subrange(start, s.len() as int)] } else { Seq::empty() }
    } else if s[i] == '\n' {
        seq![strip_cr(s.subrange(start, i))] + lines_from(s, i + 1, i + 1)
    } else {
        lines_from(s, start, i + 1)
    }
}

/// The lines of `s`.
pub open spec fn lines_spec(s: Seq<char>) -> Seq<Seq<char>> {
    lines_from(s, 0, 0)
}

/// The first line, then each later line followed by a line feed.
pub open spec fn join_text(lines: Seq<Seq<char>>) -> Seq<char>
    decreases lines.len(),
{
    if lines.len() == 0 {
        Seq::empty()
    } else if lines.len() == 1 {
        lines[0]
    } else {
        join_text(lines.drop_last()) + lines[lines.len() - 1] + seq!['\n']
    }
}

/// The document of a single character: a line break for `'\n'`.
pub open spec fn char_doc(c: char) -> Document {
    if c == '\n' {
        Document::Newline
    } else {
        Document::Char(c, match unicode_char_width(c) { Some(w) => w as u32, None => 0 })
    }
}

/// The concatenation of two documents, dropping empty ones.
pub open spec fn concat_doc(left: Document, right: Document) -> Document {
    if left is Empty {
        right
    } else if right is Empty {
        left
    } else {
        Document::Concat(Box::new(left), Box::new(right))
    }
}

impl Default for Document {
    fn default() -> (r: Self)
        ensures
            r is Empty,
    {
        Document::Empty
    }
}

impl Document {
    /// Whether the document is empty.
    pub fn is_empty(&self) -> (r: bool)
        ensures
            r == (*self is Empty),
    {
        match self {
            Document::Empty => true,
            _ => false,
        }
    }

    /// Whether the document starts with a line break.
    pub fn has_leading_newline(&self) -> (r: bool)
        ensures
            r == leading_newline(*self),
        decreases self,
    {
        match self {
            Document::Newline => true,
            Document::Char(c, _) => *c == '\n' || *c == '\r',
            Document::Empty | Document::Choice(..) => false,
            Document::Text(s, _) => {
                let t = s.as_str();
                t.unicode_len() > 0 && (t.get_char(0) == '\n' || t.get_char(0) == '\r')
            },
            Document::Flatten(x) => x.has_leading_newline(),
            Document::Indent(_, x) => x.has_leading_newline(),
            Document::Concat(a, b) => if a.is_empty() { b.has_leading_newline() } else { a.has_leading_newline() },
        }
    }
}

/// A line break.
pub fn nl() -> (r: Document)
    ensures
        r is Newline,
{
    Document::Newline
}

/// The document of one character: a line break for `'\n'`, else the
/// character with its display width (zero for a control character).
pub fn character(c: char) -> (r: Document)
    ensures
        r == char_doc(c),
{
    if c == '\n' {
        nl()
    } else {
        let width: u32 = match char_width(c) {
            Some(w) => #[verifier::truncate] (w as u32),
            None => 0,
        };
        Document::Char(c, width)
    }
}

/// The document of a text: empty, one character, or the text with its width.
pub fn text(s: String) -> (r: Document)
    ensures
        s@.len() == 0 ==> r is Empty,
        s@.len() == 1 ==> r == char_doc(s@[0]),
        s@.len() > 1 ==> (r matches Document::Text(t, w) && t@ == s@ && w == unicode_str_width(s@) as u32),
{
    let n = s.as_str().unicode_len();
    if n == 0 {
        Document::Empty
    } else if n == 1 {
        character(s.as_str().get_char(0))
    } else {
        let width = #[verifier::truncate] (str_width(s.as_str()) as u32);
        Document::Text(s, width)
    }
}

/// The document of a text known when the program was built.
pub fn const_text(s: &str) -> (r: Document)
    ensures
        s@.len() == 0 ==> r is Empty,
        s@.len() == 1 ==> r == char_doc(s@[0]),
        s@.len() > 1 ==> (r matches Document::Text(t, w) && t@ == s@ && w == unicode_str_width(s@) as u32),
{
    text(s.to_owned())
}

/// The document of a value's display text.
pub fn display<T: core::fmt::Display + ?Sized>(s: &T) -> (r: Document)
    ensures
        exists|t: String| #[trigger] vstd::string::to_string_from_display_ensures::<T>(s, t) && {
            &&& t@.len() == 0 ==> r is Empty
            &&& t@.len() == 1 ==> r == char_doc(t@[0])
            &&& t@.len() > 1 ==> (r matches Document::Text(u, w) && u@ == t@ && w == unicode_str_width(t@) as u32)
        },
{
    let t = s.to_string();
    let r = text(t);
    assert(vstd::string::to_string_from_display_ensures::<T>(s, t));
    r
}

/// Two documents one after the other; an empty one is dropped.
pub fn concat(left: Document, right: Document) -> (r: Document)
    ensures
        r == concat_doc(left, right),
{
    if left.is_empty() {
        right
    } else if right.is_empty() {
        left
    } else {
        Document::Concat(Box::new(left), Box::new(right))
    }
}

/// The first document where it fits, else the second; an empty one is dropped.
pub fn choice(first: Document, second: Document) -> (r: Document)
    ensures
        first is Empty ==> r == second,
        !(first is Empty) && second is Empty ==> r == first,
        !(first is Empty) && !(second is Empty) ==> r == Document::Choice(Box::new(first), Box::new(second)),
{
    if first.is_empty() {
        second
    } else if second.is_empty() {
        first
    } else {
        Document::Choice(Box::new(first), Box::new(second))
    }
}

/// The document laid out on one line wherever it has a choice.
pub fn flatten(doc: Document) -> (r: Document)
    ensures
        doc is Empty ==> r is Empty,
        !(doc is Empty) ==> r == Document::Flatten(Box::new(doc)),
{
    if doc.is_empty() {
        doc
    } else {
        Document::Flatten(Box::new(doc))
    }
}

/// The document with its lines indented by `columns` more columns.
pub fn indent(columns: u32, doc: Document) -> (r: Document)
    ensures
        doc is Empty ==> r is Empty,
        !(doc is Empty) ==> r == Document::Indent(columns, Box::new(doc)),
{
    if doc.is_empty() {
        doc
    } else {
        Document::Indent(columns, Box::new(doc))
    }
}

/// The lines of `s` (split at `'\n'`, a final `'\r'` dropped from each line, no
/// empty last line), the first followed by the second, and each later line
/// followed by a line break.
pub fn split(input: &str) -> (r: Document)
    ensures
        input@.len() == 0 ==> r is Empty,
        doc_text(r) == join_text(lines_spec(input@)),
{
    let n = input.unicode_len();
    let mut acc: Option<Document> = None;
    let mut start: usize = 0;
    let mut i: usize = 0;
    let ghost s = input@;
    let ghost mut done: Seq<Seq<char>> = Seq::empty();
    while i < n
        invariant
            n == input@.len(),
            s == input@,
            start <= i <= n,
            n > 0 || acc is None,
            lines_spec(s) == done + lines_from(s, start as int, i as int),
            acc is None <==> done.len() == 0,
            acc matches Some(d) ==> doc_text(d) == join_text(done),
        decreases n - i,
    {
        if input.get_char(i) == '\n' {
            let line = line_text(input, start, i, true);
            proof {
                assert(line@ == strip_cr(s.subrange(start as int, i as int)));
                assert(lines_from(s, start as int, i as int)
                    == seq![strip_cr(s.subrange(start as int, i as int))] + lines_from(s, i + 1, i + 1));
                lemma_join_push(done, line@);
                assert(done + lines_from(s, start as int, i as int)
                    == done.push(line@) + lines_from(s, i + 1, i + 1));
            }
            let d = text(line);
            proof { lemma_text_doc_text(d, line@); }
            acc = Some(join_line(acc, d));
            proof { done = done.push(line@); }
            start = i + 1;
        }
        i = i + 1;
    }
    if start < n {
        let line = line_text(input, start, n, false);
        proof {
            assert(line@ == s.subrange(start as int, n as int));
            lemma_join_push(done, line@);
        }
        let d = text(line);
        proof { lemma_text_doc_text(d, line@); }
        acc = Some(join_line(acc, d));
        proof {
            done = done.push(line@);
            assert(lines_spec(s) =~= done);
        }
    } else {
        proof {
            assert(lines_spec(s) =~= done);
        }
    }
    match acc {
        Some(d) => d,
        None => Document::Empty,
    }
}

/// The text of the document of a string is the string.
proof fn lemma_text_doc_text(d: Document, s: Seq<char>)
    requires
        s.len() == 0 ==> d is Empty,
        s.len() == 1 ==> d == char_doc(s[0]),
        s.len() > 1 ==> (d matches Document::Text(t, _) && t@ == s),
    ensures
        doc_text(d) == s,
{
    if s.len() == 0 {
        assert(s =~= Seq::<char>::empty());
    } else if s.len() == 1 {
        assert(s =~= seq![s[0]]);
    }
}

/// Joining one more line after some: with none before, the line alone; else
/// the line and a line feed after the text before.
proof fn lemma_join_push(done: Seq<Seq<char>>, line: Seq<char>)
    ensures
        done.len() == 0 ==> join_text(done.push(line)) == line,
        done.len() > 0 ==> join_text(done.push(line)) == join_text(done) + line + seq!['\n'],
{
    assert(done.push(line).drop_last() =~= done);
}

/// The characters of `s` from `start` to `end`; when the line ended with a line
/// feed, without a final `'\r'`.
fn line_text(s: &str, start: usize, end: usize, ended: bool) -> (r: String)
    requires
        start <= end <= s@.len(),
    ensures
        ended && end > start && s@[end - 1] == '\r' ==> r@ == s@.subrange(start as int, end - 1),
        !(ended && end > start && s@[end - 1] == '\r') ==> r@ == s@.subrange(start as int, end as int),
{
    if ended && end > start && s.get_char(end - 1) == '\r' {
        s.substring_char(start, end - 1).to_owned()
    } else {
        s.substring_char(start, end).to_owned()
    }
}

/// Adds the document of the next line to those before it.
fn join_line(acc: Option<Document>, doc: Document) -> (r: Document)
    ensures
        acc is None ==> r == doc,
        acc matches Some(a) ==> doc_text(r) == doc_text(a) + doc_text(doc) + seq!['\n'],
{
    match acc {
        None => doc,
        Some(Document::Empty) => {
            let ghost dd = doc;
            let r = concat(doc, nl());
            proof {
                lemma_concat_text(dd, Document::Newline);
                assert(doc_text(Document::Empty) + doc_text(dd) =~= doc_text(dd));
            }
            r
        },
        Some(other) => {
            let ghost od = other;
            let ghost dd = doc;
            let c = concat(other, doc);
            proof { lemma_concat_text(od, dd); }
            let ghost cd = c;
            let r = concat(c, nl());
            proof { lemma_concat_text(cd, Document::Newline); }
            r
        },
    }
}

/// The text of a concatenation is the two texts one after the other.
proof fn lemma_concat_text(a: Document, b: Document)
    ensures
        doc_text(concat_doc(a, b)) == doc_text(a) + doc_text(b),
{
    if a is Empty {
        assert(doc_text(a) + doc_text(b) =~= doc_text(b));
    } else if b is Empty {
        assert(doc_text(a) + doc_text(b) =~= doc_text(a));
    }
}

} // verus!
