//! Laying a document out within a width: a choice takes its first document
//! when that fits on the rest of the line.

use vstd::prelude::*;
use vstd::string::StringExecFns;
use crate::formatting::document::{Document, split, text, concat, character, nl, indent, choice,
    leading_newline, doc_text, join_text, lines_spec, char_doc, concat_doc, unicode_str_width};
use crate::formatting::hex::{DisplayHex, ToHex};
use crate::utils::hex::{push_char, hex_chars};

verus! {

/// The size of a document: one per node.
pub open spec fn doc_size(d: Document) -> nat
    decreases d,
{
    match d {
        Document::Flatten(x) => 1 + doc_size(*x),
        Document::Indent(_, x) => 1 + doc_size(*x),
        Document::Concat(a, b) => 1 + doc_size(*a) + doc_size(*b),
        Document::Choice(a, b) => 1 + doc_size(*a) + doc_size(*b),
        _ => 1,
    }
}

/// A document with no line break and no choice.
pub open spec fn plain(d: Document) -> bool
    decreases d,
{
    match d {
        Document::Empty => true,
        Document::Newline => false,
        Document::Char(c, _) => c != '\n',
        Document::Text(..) => true,
        Document::Flatten(x) => plain(*x),
        Document::Indent(_, x) => plain(*x),
        Document::Concat(a, b) => plain(*a) && plain(*b),
        Document::Choice(..) => false,
    }
}

/// The text of a plain document.
pub open spec fn plain_text(d: Document) -> Seq<char>
    decreases d,
{
    match d {
        Document::Char(c, _) => seq![c],
        Document::Text(s, _) => s@,
        Document::Flatten(x) => plain_text(*x),
        Document::Indent(_, x) => plain_text(*x),
        Document::Concat(a, b) => plain_text(*a) + plain_text(*b),
        _ => Seq::empty(),
    }
}

/// A part of the document still to print, with its indentation and whether it
/// is laid out on one line.
#[derive(Clone, Copy)]
struct Chunk<'a> {
    doc: &'a Document,
    indent: u32,
    flat: bool,
}

/// The total size of the documents of the chunks.
spec fn chunks_size(s: Seq<Chunk>) -> nat
    decreases s.len(),
{
    if s.len() == 0 { 0 } else { doc_size(*s.last().doc) + chunks_size(s.drop_last()) }
}

/// The text that the chunks print when all are plain, the last first.
spec fn chunks_text(s: Seq<Chunk>) -> Seq<char>
    decreases s.len(),
{
    if s.len() == 0 { Seq::empty() } else { plain_text(*s.last().doc) + chunks_text(s.drop_last()) }
}

/// Pushing a chunk adds its size and puts its text first.
proof fn lemma_chunks_push(s: Seq<Chunk>, c: Chunk)
    ensures
        chunks_size(s.push(c)) == doc_size(*c.doc) + chunks_size(s),
        chunks_text(s.push(c)) == plain_text(*c.doc) + chunks_text(s),
{
    assert(s.push(c).drop_last() =~= s);
}

/// Every chunk is plain.
spec fn chunks_plain(s: Seq<Chunk>) -> bool {
    forall|i: int| 0 <= i < s.len() ==> plain(*(#[trigger] s[i]).doc)
}

/// A part of the document still to lay out: the document, its indentation and
/// whether it is laid out on one line.
spec fn item_of(c: Chunk) -> (Document, u32, bool) {
    (*c.doc, c.indent, c.flat)
}

/// The parts of a stack of chunks.
spec fn items(s: Seq<Chunk>) -> Seq<(Document, u32, bool)> {
    s.map_values(|c: Chunk| item_of(c))
}

/// Pushing a chunk pushes its part.
proof fn lemma_items_push(s: Seq<Chunk>, c: Chunk)
    ensures
        items(s.push(c)) == items(s).push(item_of(c)),
{
    assert(items(s.push(c)) =~= items(s).push(item_of(c)));
}

/// The total size of the documents of the parts.
pub open spec fn items_size(s: Seq<(Document, u32, bool)>) -> nat
    decreases s.len(),
{
    if s.len() == 0 { 0 } else { doc_size(s.last().0) + items_size(s.drop_last()) }
}

/// Pushing a part adds its size.
pub proof fn lemma_items_size_push(s: Seq<(Document, u32, bool)>, x: (Document, u32, bool))
    ensures
        items_size(s.push(x)) == doc_size(x.0) + items_size(s),
{
    assert(s.push(x).drop_last() =~= s);
}

/// `x + y` wrapped to 32 bits.
pub open spec fn wrap32(x: u32, y: u32) -> u32 {
    if x + y > u32::MAX { (x + y - 0x1_0000_0000) as u32 } else { (x + y) as u32 }
}

/// Whether the nearest part below the top that is not empty is missing or
/// starts with a line break.
pub open spec fn starts_line(s: Seq<(Document, u32, bool)>) -> bool
    decreases s.len(),
{
    if s.len() == 0 {
        true
    } else if !(s.last().0 is Empty) {
        leading_newline(s.last().0)
    } else {
        starts_line(s.drop_last())
    }
}

/// The columns left on a line at `column` within `width`.
pub open spec fn room(column: u32, width: usize) -> int {
    if width >= column { width - column } else { 0 }
}

/// Whether the parts of `stack`, then the first `j` parts of `below` from the
/// top down, fit on `remaining` columns before a line break or the end.
pub open spec fn fits_from(below: Seq<(Document, u32, bool)>, j: nat, stack: Seq<(Document, u32, bool)>, remaining: int) -> bool
    decreases j, items_size(stack),
{
    if stack.len() == 0 {
        if j == 0 || j > below.len() {
            true
        } else {
            fits_from(below, (j - 1) as nat, seq![below[j - 1]], remaining)
        }
    } else {
        let top = stack.last();
        let rest = stack.drop_last();
        let (d, ind, flat) = top;
        proof { assert(stack == rest.push(top)); }
        match d {
            Document::Empty => true,
            Document::Newline => true,
            Document::Char(_, w) => if w <= remaining { fits_from(below, j, rest, remaining - w) } else { false },
            Document::Text(_, w) => if w <= remaining { fits_from(below, j, rest, remaining - w) } else { false },
            Document::Flatten(x) => {
                proof { lemma_items_size_push(rest, (*x, ind, true)); lemma_items_size_push(rest, top); }
                fits_from(below, j, rest.push((*x, ind, true)), remaining)
            },
            Document::Indent(i, x) => {
                proof { lemma_items_size_push(rest, (*x, wrap32(ind, i), flat)); lemma_items_size_push(rest, top); }
                fits_from(below, j, rest.push((*x, wrap32(ind, i), flat)), remaining)
            },
            Document::Concat(x, y) => {
                proof {
                    lemma_items_size_push(rest, (*y, ind, flat));
                    lemma_items_size_push(rest.push((*y, ind, flat)), (*x, ind, flat));
                    lemma_items_size_push(rest, top);
                }
                fits_from(below, j, rest.push((*y, ind, flat)).push((*x, ind, flat)), remaining)
            },
            Document::Choice(x, y) => {
                let e = if flat { *x } else { *y };
                proof { lemma_items_size_push(rest, (e, ind, flat)); lemma_items_size_push(rest, top); }
                fits_from(below, j, rest.push((e, ind, flat)), remaining)
            },
        }
    }
}

/// A document of text alone: characters and texts, possibly flattened,
/// indented or joined, with no break, choice or empty part.
pub open spec fn solid(d: Document) -> bool
    decreases d,
{
    match d {
        Document::Char(..) => true,
        Document::Text(..) => true,
        Document::Flatten(x) => solid(*x),
        Document::Indent(_, x) => solid(*x),
        Document::Concat(a, b) => solid(*a) && solid(*b),
        _ => false,
    }
}

/// The columns a solid document takes: the widths of its characters and texts.
pub open spec fn solid_width(d: Document) -> nat
    decreases d,
{
    match d {
        Document::Char(_, w) => w as nat,
        Document::Text(_, w) => w as nat,
        Document::Flatten(x) => solid_width(*x),
        Document::Indent(_, x) => solid_width(*x),
        Document::Concat(a, b) => solid_width(*a) + solid_width(*b),
        _ => 0,
    }
}

/// A solid document on top of the parts being checked fits exactly when its
/// width does, and the rest fits in what is left.
proof fn lemma_fits_solid(below: Seq<(Document, u32, bool)>, j: nat, rest: Seq<(Document, u32, bool)>, d: Document,
    ind: u32, flat: bool, r: int)
    requires
        solid(d),
    ensures
        fits_from(below, j, rest.push((d, ind, flat)), r) == (solid_width(d) <= r && fits_from(below, j, rest, r
            - solid_width(d))),
    decreases d,
{
    let stack = rest.push((d, ind, flat));
    assert(stack.last() == (d, ind, flat));
    assert(stack.drop_last() =~= rest);
    match d {
        Document::Flatten(x) => {
            lemma_fits_solid(below, j, rest, *x, ind, true, r);
        },
        Document::Indent(i, x) => {
            lemma_fits_solid(below, j, rest, *x, wrap32(ind, i), flat, r);
        },
        Document::Concat(x, y) => {
            lemma_fits_solid(below, j, rest.push((*y, ind, flat)), *x, ind, flat, r);
            lemma_fits_solid(below, j, rest, *y, ind, flat, r - solid_width(*x));
        },
        _ => {},
    }
}

/// The law of the line's end: the check of what fits stops at a line break or
/// an empty part, whatever follows it and however little room is left.
pub proof fn lemma_fits_stops_at_break(below: Seq<(Document, u32, bool)>, j: nat, rest: Seq<(Document, u32, bool)>,
    ind: u32, flat: bool, r: int)
    ensures
        fits_from(below, j, rest.push((Document::Newline, ind, flat)), r),
        fits_from(below, j, rest.push((Document::Empty, ind, flat)), r),
{
    assert(rest.push((Document::Newline, ind, flat)).last() == (Document::Newline, ind, flat));
    assert(rest.push((Document::Empty, ind, flat)).last() == (Document::Empty, ind, flat));
}

/// The law of room on a line: text alone (a solid document) at `column`, with
/// the parts below it up to the next break, fits within `width` exactly when
/// the text ends within the width and the parts below fit after it; the room
/// on the line is what the column leaves of the width.
pub proof fn lemma_fits_room(below: Seq<(Document, u32, bool)>, j: nat, d: Document, ind: u32, flat: bool, column: u32,
    width: usize)
    requires
        solid(d),
        column <= width,
    ensures
        fits_from(below, j, seq![(d, ind, flat)], room(column, width)) == (column + solid_width(d) <= width
            && fits_from(below, j, Seq::empty(), width - column - solid_width(d))),
{
    assert(seq![(d, ind, flat)] =~= Seq::<(Document, u32, bool)>::empty().push((d, ind, flat)));
    lemma_fits_solid(below, j, Seq::empty(), d, ind, flat, room(column, width));
}

/// What a line break prints with the parts `rest` still to lay out: a line
/// feed, then the indentation unless the next text starts a line itself.
pub open spec fn line_break(rest: Seq<(Document, u32, bool)>, ind: u32) -> Seq<char> {
    if starts_line(rest) { seq!['\n'] } else { seq!['\n'] + Seq::new(ind as nat, |k: int| ' ') }
}

/// The column after such a line break.
pub open spec fn break_column(rest: Seq<(Document, u32, bool)>, ind: u32) -> u32 {
    if starts_line(rest) { 0 } else { ind }
}

/// The text that the parts `s` print from `column` within `width`, the top
/// part first.
pub open spec fn layout_from(s: Seq<(Document, u32, bool)>, column: u32, width: usize) -> Seq<char>
    decreases items_size(s),
{
    if s.len() == 0 {
        Seq::empty()
    } else {
        let top = s.last();
        let rest = s.drop_last();
        let (d, ind, flat) = top;
        proof { assert(s == rest.push(top)); lemma_items_size_push(rest, top); }
        match d {
            Document::Empty => layout_from(rest, column, width),
            Document::Newline => line_break(rest, ind) + layout_from(rest, break_column(rest, ind), width),
            Document::Char(ch, w) => if ch == '\n' {
                line_break(rest, ind) + layout_from(rest, break_column(rest, ind), width)
            } else {
                seq![ch] + layout_from(rest, wrap32(column, w), width)
            },
            Document::Text(t, w) => t@ + layout_from(rest, wrap32(column, w), width),
            Document::Flatten(x) => {
                proof { lemma_items_size_push(rest, (*x, ind, true)); }
                layout_from(rest.push((*x, ind, true)), column, width)
            },
            Document::Indent(i, x) => {
                proof { lemma_items_size_push(rest, (*x, wrap32(ind, i), flat)); }
                layout_from(rest.push((*x, wrap32(ind, i), flat)), column, width)
            },
            Document::Concat(x, y) => {
                proof {
                    lemma_items_size_push(rest, (*y, ind, flat));
                    lemma_items_size_push(rest.push((*y, ind, flat)), (*x, ind, flat));
                }
                layout_from(rest.push((*y, ind, flat)).push((*x, ind, flat)), column, width)
            },
            Document::Choice(x, y) => {
                proof { lemma_items_size_push(rest, (*x, ind, flat)); lemma_items_size_push(rest, (*y, ind, flat)); }
                if flat || fits_from(rest, rest.len(), seq![(*x, ind, flat)], room(column, width)) {
                    layout_from(rest.push((*x, ind, flat)), column, width)
                } else {
                    layout_from(rest.push((*y, ind, flat)), column, width)
                }
            },
        }
    }
}

/// The text of `doc` laid out within `width` columns.
pub open spec fn pretty_layout(doc: Document, width: usize) -> Seq<char> {
    layout_from(seq![(doc, 0u32, false)], 0, width)
}

/// Whether the chunk, then the chunks below it, fit on the `width - column`
/// columns left before the next line break.
fn fits(chunks: &Vec<Chunk>, column: u32, width: usize, chunk: Chunk) -> (r: bool)
    ensures
        r == fits_from(items(chunks@), chunks@.len(), seq![item_of(chunk)], room(column, width)),
{
    let ghost below = items(chunks@);
    let mut remaining: usize = if width >= column as usize { width - column as usize } else { 0 };
    let mut stack: Vec<Chunk> = Vec::new();
    stack.push(chunk);
    let mut j: usize = chunks.len();
    proof {
        assert(items(stack@) =~= seq![item_of(chunk)]);
    }
    loop
        invariant
            j <= chunks@.len(),
            below == items(chunks@),
            fits_from(below, j as nat, items(stack@), remaining as int)
                == fits_from(below, chunks@.len(), seq![item_of(chunk)], room(column, width)),
        decreases j, chunks_size(stack@),
    {
        let ghost before = stack@;
        let ghost j0 = j;
        let c = match stack.pop() {
            Some(c) => c,
            None => {
                if j == 0 {
                    return true;
                }
                j = j - 1;
                proof {
                    assert(before.len() == 0);
                    assert(items(before) =~= Seq::<(Document, u32, bool)>::empty());
                    assert(below[j as int] == item_of(chunks@[j as int]));
                }
                chunks[j]
            },
        };
        let ghost rest = stack@;
        proof {
            if before.len() > 0 {
                assert(before =~= rest.push(c));
                lemma_chunks_push(rest, c);
                lemma_items_push(rest, c);
            } else {
                assert(rest.len() == 0);
                assert(items(rest).push(item_of(c)) =~= seq![below[j as int]]);
            }
            assert(fits_from(below, j0 as nat, items(before), remaining as int)
                == fits_from(below, j as nat, items(rest).push(item_of(c)), remaining as int));
            assert(items(rest).push(item_of(c)).drop_last() =~= items(rest));
        }
        match c.doc {
            Document::Empty | Document::Newline => {
                return true;
            },
            Document::Char(_, w) | Document::Text(_, w) => {
                if *w as usize <= remaining {
                    remaining = remaining - *w as usize;
                } else {
                    return false;
                }
            },
            Document::Flatten(x) => {
                let n = Chunk { doc: &**x, indent: c.indent, flat: true };
                stack.push(n);
                proof { lemma_chunks_push(rest, n); lemma_items_push(rest, n); }
            },
            Document::Indent(i, x) => {
                let n = Chunk { doc: &**x, indent: c.indent.wrapping_add(*i), flat: c.flat };
                stack.push(n);
                proof { lemma_chunks_push(rest, n); lemma_items_push(rest, n); }
            },
            Document::Concat(x, y) => {
                let ny = Chunk { doc: &**y, indent: c.indent, flat: c.flat };
                let nx = Chunk { doc: &**x, indent: c.indent, flat: c.flat };
                stack.push(ny);
                stack.push(nx);
                proof {
                    lemma_chunks_push(rest, ny);
                    lemma_chunks_push(rest.push(ny), nx);
                    lemma_items_push(rest, ny);
                    lemma_items_push(rest.push(ny), nx);
                }
            },
            Document::Choice(x, y) => {
                let d: &Document = if c.flat { &**x } else { &**y };
                let n = Chunk { doc: d, indent: c.indent, flat: c.flat };
                stack.push(n);
                proof { lemma_chunks_push(rest, n); lemma_items_push(rest, n); }
            },
        }
    }
}

/// Whether the nearest chunk below the top that is not empty is missing or
/// starts with a line break.
fn next_starts_line(chunks: &Vec<Chunk>) -> (r: bool)
    ensures
        r == starts_line(items(chunks@)),
{
    let ghost all = items(chunks@);
    let mut j: usize = chunks.len();
    proof {
        assert(all.take(j as int) =~= all);
    }
    while j > 0
        invariant
            j <= chunks@.len(),
            all == items(chunks@),
            starts_line(all.take(j as int)) == starts_line(all),
        decreases j,
    {
        j = j - 1;
        proof {
            assert(all.take(j + 1).drop_last() =~= all.take(j as int));
            assert(all.take(j + 1).last() == item_of(chunks@[j as int]));
        }
        if !chunks[j].doc.is_empty() {
            return chunks[j].doc.has_leading_newline();
        }
    }
    proof {
        assert(all.take(0) =~= Seq::<(Document, u32, bool)>::empty());
    }
    true
}

/// Lays `doc` out within `width` columns: a choice takes its first document
/// when it fits on the rest of the line, or when the layout is flat; a line
/// break is followed by the indentation, unless the next text starts a line
/// itself.
pub fn pretty_print(doc: &Document, width: usize) -> (r: String)
    ensures
        r@ == pretty_layout(*doc, width),
        plain(*doc) ==> r@ == plain_text(*doc),
{
    let mut out = String::new();
    let mut column: u32 = 0;
    let mut chunks: Vec<Chunk> = Vec::new();
    chunks.push(Chunk { doc, indent: 0, flat: false });
    proof {
        lemma_chunks_push(Seq::empty(), chunks@[0]);
        assert(chunks@ =~= Seq::<Chunk>::empty().push(chunks@[0]));
        assert(chunks_text(Seq::<Chunk>::empty()) =~= Seq::<char>::empty());
        assert(out@ =~= Seq::<char>::empty());
        assert(out@ + chunks_text(chunks@) =~= plain_text(*doc));
        assert(items(chunks@) =~= seq![(*doc, 0u32, false)]);
        assert(out@ + layout_from(items(chunks@), column, width) =~= pretty_layout(*doc, width));
    }
    loop
        invariant
            plain(*doc) ==> chunks_plain(chunks@) && out@ + chunks_text(chunks@) == plain_text(*doc),
            out@ + layout_from(items(chunks@), column, width) == pretty_layout(*doc, width),
        ensures
            plain(*doc) ==> out@ == plain_text(*doc),
            out@ == pretty_layout(*doc, width),
        decreases chunks_size(chunks@),
    {
        let ghost before = chunks@;
        let c = match chunks.pop() {
            Some(c) => c,
            None => {
                proof {
                    assert(chunks_text(chunks@) =~= Seq::<char>::empty());
                    assert(out@ + chunks_text(chunks@) =~= out@);
                    assert(items(chunks@) =~= Seq::<(Document, u32, bool)>::empty());
                    assert(out@ + layout_from(items(chunks@), column, width) =~= out@);
                }
                break;
            },
        };
        let ghost rest = chunks@;
        let ghost col0 = column;
        proof {
            assert(before =~= rest.push(c));
            lemma_chunks_push(rest, c);
            lemma_items_push(rest, c);
            assert(items(rest).push(item_of(c)).drop_last() =~= items(rest));
        }
        let ghost out0 = out@;
        let ghost lay = layout_from(items(before), col0, width);
        match c.doc {
            Document::Empty => {},
            Document::Newline => {
                push_char(&mut out, '\n');
                if next_starts_line(&chunks) {
                    column = 0;
                } else {
                    let mut k: u32 = 0;
                    while k < c.indent
                        invariant
                            k <= c.indent,
                            out@ == out0 + seq!['\n'] + Seq::new(k as nat, |q: int| ' '),
                        decreases c.indent - k,
                    {
                        push_char(&mut out, ' ');
                        k = k + 1;
                        proof {
                            assert(out@ =~= out0 + seq!['\n'] + Seq::new(k as nat, |q: int| ' '));
                        }
                    }
                    column = c.indent;
                }
                proof {
                    assert(out@ =~= out0 + line_break(items(rest), c.indent));
                }
            },
            Document::Char(ch, w) => {
                if *ch == '\n' {
                    push_char(&mut out, '\n');
                    if next_starts_line(&chunks) {
                        column = 0;
                    } else {
                        let mut k: u32 = 0;
                        while k < c.indent
                            invariant
                                k <= c.indent,
                                out@ == out0 + seq!['\n'] + Seq::new(k as nat, |q: int| ' '),
                            decreases c.indent - k,
                        {
                            push_char(&mut out, ' ');
                            k = k + 1;
                            proof {
                                assert(out@ =~= out0 + seq!['\n'] + Seq::new(k as nat, |q: int| ' '));
                            }
                        }
                        column = c.indent;
                    }
                    proof {
                        assert(out@ =~= out0 + line_break(items(rest), c.indent));
                    }
                } else {
                    push_char(&mut out, *ch);
                    column = column.wrapping_add(*w);
                    proof {
                        assert(out@ == out0 + plain_text(*c.doc));
                    }
                }
            },
            Document::Text(t, w) => {
                out.append(t.as_str());
                column = column.wrapping_add(*w);
            },
            Document::Flatten(x) => {
                let n = Chunk { doc: &**x, indent: c.indent, flat: true };
                chunks.push(n);
                proof { lemma_chunks_push(rest, n); lemma_items_push(rest, n); }
            },
            Document::Indent(i, x) => {
                let n = Chunk { doc: &**x, indent: c.indent.wrapping_add(*i), flat: c.flat };
                chunks.push(n);
                proof { lemma_chunks_push(rest, n); lemma_items_push(rest, n); }
            },
            Document::Concat(x, y) => {
                let ny = Chunk { doc: &**y, indent: c.indent, flat: c.flat };
                let nx = Chunk { doc: &**x, indent: c.indent, flat: c.flat };
                chunks.push(ny);
                chunks.push(nx);
                proof {
                    lemma_chunks_push(rest, ny);
                    lemma_chunks_push(rest.push(ny), nx);
                    lemma_items_push(rest, ny);
                    lemma_items_push(rest.push(ny), nx);
                }
            },
            Document::Choice(x, y) => {
                let first = Chunk { doc: &**x, indent: c.indent, flat: c.flat };
                if c.flat || fits(&chunks, column, width, first) {
                    chunks.push(first);
                    proof { lemma_chunks_push(rest, first); lemma_items_push(rest, first); }
                } else {
                    let n = Chunk { doc: &**y, indent: c.indent, flat: c.flat };
                    chunks.push(n);
                    proof { lemma_chunks_push(rest, n); lemma_items_push(rest, n); }
                }
            },
        }
        proof {
            assert(out@ + layout_from(items(chunks@), column, width) =~= out0 + lay);
            if plain(*doc) {
                assert(plain(*before[before.len() - 1].doc));
                assert forall|i: int| 0 <= i < chunks@.len() implies plain(*(#[trigger] chunks@[i]).doc) by {
                    if i < rest.len() {
                        assert(chunks@[i] == rest[i]);
                        assert(rest[i] == before[i]);
                    }
                }
            }
        }
    }
    out
}

/// A document of a list: on one line `[a, b]`, separated by `", "`; or each
/// element on a line of its own, indented by four columns.
pub open spec fn join_single(docs: Seq<Document>) -> Document
    decreases docs.len(),
{
    if docs.len() == 0 {
        Document::Empty
    } else {
        let p = join_single(docs.drop_last());
        let e = docs[docs.len() - 1];
        if p is Empty { e } else { concat_doc(concat_doc(concat_doc(p, char_doc(',')), char_doc(' ')), e) }
    }
}

/// The elements one per line, separated by `","` and a line break.
pub open spec fn join_multi(docs: Seq<Document>) -> Document
    decreases docs.len(),
{
    if docs.len() == 0 {
        Document::Empty
    } else {
        let p = join_multi(docs.drop_last());
        let e = docs[docs.len() - 1];
        if p is Empty { e } else { concat_doc(concat_doc(concat_doc(p, char_doc(',')), Document::Newline), e) }
    }
}

/// The document of a list whose elements have the documents `one` for the
/// single line and `many` for the lines of their own: the single line where it
/// fits, else the other.
pub open spec fn list_doc(one: Seq<Document>, many: Seq<Document>) -> Document {
    let single_line = concat_doc(concat_doc(char_doc('['), join_single(one)), char_doc(']'));
    let inner = concat_doc(Document::Newline, join_multi(many));
    let indented = if inner is Empty { inner } else { Document::Indent(4, Box::new(inner)) };
    let multi_line = concat_doc(concat_doc(concat_doc(char_doc('['), indented), Document::Newline), char_doc(']'));
    Document::Choice(Box::new(single_line), Box::new(multi_line))
}

/// Values that lay themselves out as documents.
pub trait PrettyPrint {
    /// Whether `d` is a document of the value.
    spec fn renders(&self, d: Document) -> bool;

    /// The document of the value.
    fn render(&self) -> (r: Document)
        ensures
            self.renders(r);

    /// The value laid out within 80 columns: the layout of one of its documents.
    fn to_pretty_string(&self) -> (r: String)
        ensures
            exists|d: Document| #[trigger] self.renders(d) && r@ == pretty_layout(d, 80),
    {
        let doc = self.render();
        let r = pretty_print(&doc, 80);
        assert(self.renders(doc) && r@ == pretty_layout(doc, 80));
        r
    }
}

impl PrettyPrint for String {
    /// The lines of the string, as `split` lays them out.
    open spec fn renders(&self, d: Document) -> bool {
        &&& doc_text(d) == join_text(lines_spec(self@))
        &&& self@.len() == 0 ==> d is Empty
    }

    fn render(&self) -> (r: Document) {
        split(self.as_str())
    }
}

impl<'a> PrettyPrint for DisplayHex<'a> {
    /// The text `0x` and two hexadecimal digits per byte, with its width.
    open spec fn renders(&self, d: Document) -> bool {
        d matches Document::Text(t, w) && t@ == seq!['0', 'x'] + hex_chars(self.0@)
            && w == unicode_str_width(t@) as u32
    }

    fn render(&self) -> (r: Document) {
        text(self.to_hex_with_prefix())
    }
}

impl<T: PrettyPrint> PrettyPrint for Vec<T> {
    /// The elements in brackets: on one line separated by `", "` where that
    /// fits, else one per line, indented by four columns. Each element is
    /// rendered twice, once for each layout.
    open spec fn renders(&self, d: Document) -> bool {
        exists|one: Seq<Document>, many: Seq<Document>|
            #![trigger list_doc(one, many)]
            one.len() == self@.len() && many.len() == self@.len()
            && (forall|i: int| 0 <= i < self@.len() ==> #[trigger] self@[i].renders(one[i]) && self@[i].renders(many[i]))
            && d == list_doc(one, many)
    }

    fn render(&self) -> (r: Document) {
        let mut single = Document::Empty;
        let mut multi = Document::Empty;
        let ghost mut one: Seq<Document> = Seq::empty();
        let ghost mut many: Seq<Document> = Seq::empty();
        let mut i: usize = 0;
        while i < self.len()
            invariant
                0 <= i <= self@.len(),
                one.len() == i,
                many.len() == i,
                forall|k: int| 0 <= k < i ==> #[trigger] self@[k].renders(one[k]) && self@[k].renders(many[k]),
                single == join_single(one),
                multi == join_multi(many),
            decreases self@.len() - i,
        {
            let e1 = self[i].render();
            let ghost g1 = e1;
            if single.is_empty() {
                single = e1;
            } else {
                single = concat(concat(concat(single, character(',')), character(' ')), e1);
            }
            let e2 = self[i].render();
            let ghost g2 = e2;
            if multi.is_empty() {
                multi = e2;
            } else {
                multi = concat(concat(concat(multi, character(',')), nl()), e2);
            }
            proof {
                assert(one.push(g1).drop_last() =~= one);
                assert(many.push(g2).drop_last() =~= many);
                one = one.push(g1);
                many = many.push(g2);
            }
            i = i + 1;
        }
        let single_line = concat(concat(character('['), single), character(']'));
        let multi_line = concat(concat(concat(character('['), indent(4, concat(nl(), multi))), nl()), character(']'));
        let r = choice(single_line, multi_line);
        proof {
            assert(r == list_doc(one, many));
        }
        r
    }
}

} // verus!
