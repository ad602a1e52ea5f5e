//! Minimal PDF 1.7 writer.
//!
//! Produces a single-page document with one uncompressed content stream. The
//! cross-reference table is byte-offset sensitive, so the file is assembled
//! into a byte buffer and the offsets are recorded as each object is written.

use crate::color::Rgba8;
use crate::export::{
    numeral, paths_text, push_num, push_paths, push_rgb, rgb_text, Artwork, Fill,
};
use crate::text::{
    decimal, last_digits, lemma_last_digits_digits, lemma_last_digits_len, push_bytes, push_decimal,
    push_last_digits, push_text,
};
use vstd::prelude::*;
use vstd::utf8::{encode_utf8, is_ascii_chars, is_ascii_chars_encode_utf8};

verus! {

// ---- Content stream -----------------------------------------------------

/// The backdrop rectangle.
pub open spec fn backdrop(bg: Option<Rgba8>, w: int, h: int, p: nat) -> Seq<char> {
    match bg {
        Some(c) => rgb_text(c) + " 0 0 "@ + numeral(w, p) + " "@ + numeral(h, p) + " re f\n"@,
        None => seq![],
    }
}

/// One shape; a shape without subpaths leaves no trace. `f` fills with the
/// nonzero winding rule, which is what the orientation of outer rings and holes
/// assumes.
pub open spec fn fill_text(f: Fill, p: nat) -> Seq<char> {
    if f.paths@.len() == 0 {
        seq![]
    } else {
        rgb_text(f.color) + "\n"@ + paths_text(f.paths@, p) + "f\n"@
    }
}

pub open spec fn fills_text(fills: Seq<Fill>, p: nat) -> Seq<char>
    decreases fills.len(),
{
    if fills.len() == 0 {
        seq![]
    } else {
        fills_text(fills.drop_last(), p) + fill_text(fills.last(), p)
    }
}

/// What the page paints.
pub open spec fn content(page: Artwork, p: nat) -> Seq<char> {
    backdrop(page.background, page.width as int, page.height as int, p) + fills_text(page.fills@, p)
}

fn content_stream(page: &Artwork, precision: u32) -> (s: String)
    ensures
        s@ == content(*page, precision as nat),
{
    let ghost p = precision as nat;
    let mut s: String = String::new();
    let ghost back = backdrop(page.background, page.width as int, page.height as int, p);
    if let Some(bg) = page.background {
        push_rgb(&mut s, bg);
        push_text(&mut s, " 0 0 ");
        push_num(&mut s, page.width as i128, precision);
        push_text(&mut s, " ");
        push_num(&mut s, page.height as i128, precision);
        push_text(&mut s, " re f\n");
    }
    assert(s@ =~= back);
    let mut i: usize = 0;
    assert(s@ =~= back + fills_text(page.fills@.take(0), p));
    while i < page.fills.len()
        invariant
            i <= page.fills@.len(),
            p == precision as nat,
            s@ == back + fills_text(page.fills@.take(i as int), p),
        decreases page.fills@.len() - i,
    {
        let f: &Fill = &page.fills[i];
        let ghost before = s@;
        if f.paths.len() > 0 {
            push_rgb(&mut s, f.color);
            push_text(&mut s, "\n");
            push_paths(&mut s, &f.paths, precision);
            push_text(&mut s, "f\n");
        }
        proof {
            assert(s@ =~= before + fill_text(*f, p));
            let next = page.fills@.take(i + 1);
            assert(next.drop_last() =~= page.fills@.take(i as int));
            assert(s@ =~= back + fills_text(next, p));
        }
        i = i + 1;
    }
    assert(page.fills@.take(i as int) =~= page.fills@);
    s
}

// ---- File structure -----------------------------------------------------

/// The header. The second line's comment marks the file as containing binary
/// data, which keeps naive tools from mangling it in transit.
pub open spec fn opening() -> Seq<u8> {
    encode_utf8("%PDF-1.7\n"@) + seq![0x25u8, 0xE2u8, 0xE3u8, 0xCFu8, 0xD3u8, 0x0Au8]
}

/// The first line of object `n`.
pub open spec fn object_line(n: nat) -> Seq<u8> {
    encode_utf8(decimal(n)) + encode_utf8(" 0 obj\n"@)
}

/// Object `n` around `body`.
pub open spec fn object(n: nat, body: Seq<char>) -> Seq<u8> {
    object_line(n) + encode_utf8(body) + encode_utf8("\nendobj\n"@)
}

pub open spec fn catalog() -> Seq<char> {
    "<< /Type /Catalog /Pages 2 0 R >>"@
}

pub open spec fn page_tree() -> Seq<char> {
    "<< /Type /Pages /Kids [3 0 R] /Count 1 >>"@
}

pub open spec fn page_dict(w: int, h: int, p: nat) -> Seq<char> {
    "<< /Type /Page /Parent 2 0 R /MediaBox [0 0 "@ + numeral(w, p) + " "@ + numeral(h, p)
        + "] /Contents 4 0 R /Resources << /ProcSet [/PDF] >> >>"@
}

/// What stands before the bytes of a content stream of `len` bytes.
pub open spec fn stream_head(len: nat) -> Seq<u8> {
    object_line(4) + encode_utf8("<< /Length "@ + decimal(len) + " >>\nstream\n"@)
}

pub open spec fn stream_tail() -> Seq<u8> {
    encode_utf8("endstream\nendobj\n"@)
}

/// The byte offset at which object `n` begins.
pub open spec fn offset(page: Artwork, p: nat, n: int) -> nat
    decreases n,
{
    if n <= 1 {
        opening().len()
    } else if n == 2 {
        offset(page, p, 1) + object(1, catalog()).len()
    } else if n == 3 {
        offset(page, p, 2) + object(2, page_tree()).len()
    } else {
        offset(page, p, 3) + object(
            3,
            page_dict(page.width as int, page.height as int, p),
        ).len()
    }
}

/// The bytes of the content stream.
pub open spec fn stream(page: Artwork, p: nat) -> Seq<u8> {
    encode_utf8(content(page, p))
}

/// Everything before the cross-reference table.
pub open spec fn objects(page: Artwork, p: nat) -> Seq<u8> {
    opening() + object(1, catalog()) + object(2, page_tree()) + object(
        3,
        page_dict(page.width as int, page.height as int, p),
    ) + stream_head(stream(page, p).len()) + stream(page, p) + stream_tail()
}

/// An offset with at least ten digits.
pub open spec fn ten_digits(n: nat) -> Seq<char> {
    if n < 10_000_000_000 {
        last_digits(n, 10)
    } else {
        decimal(n)
    }
}

/// The cross-reference entry of an object at `off`.
pub open spec fn xref_entry(off: nat) -> Seq<u8> {
    encode_utf8(ten_digits(off) + " 00000 n \n"@)
}

pub open spec fn xref_head() -> Seq<u8> {
    encode_utf8("xref\n"@) + encode_utf8("0 5\n0000000000 65535 f \n"@)
}

/// The cross-reference table.
pub open spec fn xref_table(page: Artwork, p: nat) -> Seq<u8> {
    xref_head() + xref_entry(offset(page, p, 1)) + xref_entry(offset(page, p, 2)) + xref_entry(
        offset(page, p, 3),
    ) + xref_entry(offset(page, p, 4))
}

/// The trailer of a file whose table begins at `at`.
pub open spec fn trailer(at: nat) -> Seq<u8> {
    encode_utf8("trailer\n<< /Size 5 /Root 1 0 R >>\nstartxref\n"@ + decimal(at) + "\n%%EOF\n"@)
}

/// The whole file.
pub open spec fn document(page: Artwork, p: nat) -> Seq<u8> {
    objects(page, p) + xref_table(page, p) + trailer(objects(page, p).len())
}

fn push_object_line(out: &mut Vec<u8>, n: u64)
    ensures
        final(out)@ == old(out)@ + object_line(n as nat),
{
    let ghost out0 = out@;
    let mut number: String = String::new();
    push_decimal(&mut number, n);
    assert(number@ =~= decimal(n as nat));
    push_bytes(out, number.as_str());
    push_bytes(out, " 0 obj\n");
    assert(out@ =~= out0 + object_line(n as nat));
}

fn push_object(out: &mut Vec<u8>, n: u64, body: &str)
    ensures
        final(out)@ == old(out)@ + object(n as nat, body@),
{
    let ghost out0 = out@;
    push_object_line(out, n);
    push_bytes(out, body);
    push_bytes(out, "\nendobj\n");
    assert(out@ =~= out0 + object(n as nat, body@));
}

fn push_entry(out: &mut Vec<u8>, off: usize)
    ensures
        final(out)@ == old(out)@ + xref_entry(off as nat),
{
    let mut s: String = String::new();
    let off: u64 = off as u64;
    if off < 10_000_000_000 {
        push_last_digits(&mut s, off as u128, 10);
    } else {
        push_decimal(&mut s, off);
    }
    assert(s@ =~= ten_digits(off as nat));
    push_text(&mut s, " 00000 n \n");
    push_bytes(out, s.as_str());
}

/// Write `page` as PDF.
pub fn write(page: &Artwork, precision: u32) -> (out: Vec<u8>)
    ensures
        out@ == document(*page, precision as nat),
{
    let ghost p = precision as nat;
    let stream_text: String = content_stream(page, precision);
    let ghost data = stream(*page, p);
    let mut out: Vec<u8> = Vec::new();
    push_bytes(&mut out, "%PDF-1.7\n");
    out.push(0x25);
    out.push(0xE2);
    out.push(0xE3);
    out.push(0xCF);
    out.push(0xD3);
    out.push(0x0A);
    assert(out@ =~= opening());

    let first: usize = out.len();
    push_object(&mut out, 1, "<< /Type /Catalog /Pages 2 0 R >>");
    let second: usize = out.len();
    push_object(&mut out, 2, "<< /Type /Pages /Kids [3 0 R] /Count 1 >>");
    let third: usize = out.len();
    let mut dict: String = String::new();
    push_text(&mut dict, "<< /Type /Page /Parent 2 0 R /MediaBox [0 0 ");
    push_num(&mut dict, page.width as i128, precision);
    push_text(&mut dict, " ");
    push_num(&mut dict, page.height as i128, precision);
    push_text(&mut dict, "] /Contents 4 0 R /Resources << /ProcSet [/PDF] >> >>");
    assert(dict@ =~= page_dict(page.width as int, page.height as int, p));
    push_object(&mut out, 3, dict.as_str());

    // The content stream object is written by hand because its body contains
    // the raw stream between `stream`/`endstream` markers.
    let fourth: usize = out.len();
    push_object_line(&mut out, 4);
    let length: usize = stream_text.as_str().as_bytes().len();
    assert(length == data.len());
    let mut head: String = String::new();
    push_text(&mut head, "<< /Length ");
    push_decimal(&mut head, length as u64);
    push_text(&mut head, " >>\nstream\n");
    assert(head@ =~= "<< /Length "@ + decimal(data.len()) + " >>\nstream\n"@);
    push_bytes(&mut out, head.as_str());
    push_bytes(&mut out, stream_text.as_str());
    push_bytes(&mut out, "endstream\nendobj\n");
    assert(out@ =~= objects(*page, p));

    let table: usize = out.len();
    assert(first == offset(*page, p, 1) && second == offset(*page, p, 2) && third == offset(
        *page,
        p,
        3,
    ) && fourth == offset(*page, p, 4));
    push_bytes(&mut out, "xref\n");
    // Every cross-reference entry must be exactly 20 bytes.
    push_bytes(&mut out, "0 5\n0000000000 65535 f \n");
    push_entry(&mut out, first);
    push_entry(&mut out, second);
    push_entry(&mut out, third);
    push_entry(&mut out, fourth);
    assert(out@ =~= objects(*page, p) + xref_table(*page, p));
    let mut tail: String = String::new();
    push_text(&mut tail, "trailer\n<< /Size 5 /Root 1 0 R >>\nstartxref\n");
    push_decimal(&mut tail, table as u64);
    push_text(&mut tail, "\n%%EOF\n");
    assert(tail@ =~= "trailer\n<< /Size 5 /Root 1 0 R >>\nstartxref\n"@ + decimal(
        objects(*page, p).len(),
    ) + "\n%%EOF\n"@);
    push_bytes(&mut out, tail.as_str());
    out
}

// ---- Laws ---------------------------------------------------------------

/// Where the parts of a concatenation stand.
proof fn lemma_parts(
    a: Seq<u8>,
    o1: Seq<u8>,
    o2: Seq<u8>,
    o3: Seq<u8>,
    head: Seq<u8>,
    data: Seq<u8>,
    tail: Seq<u8>,
    rest: Seq<u8>,
)
    ensures
        ({
            let all = a + o1 + o2 + o3 + head + data + tail + rest;
            let x1 = a.len() as int;
            let x2 = x1 + o1.len();
            let x3 = x2 + o2.len();
            let x4 = x3 + o3.len();
            let x5 = x4 + head.len();
            let x6 = x5 + data.len();
            let x7 = x6 + tail.len();
            &&& x7 <= all.len()
            &&& all.subrange(x1, x2) == o1
            &&& all.subrange(x2, x3) == o2
            &&& all.subrange(x3, x4) == o3
            &&& all.subrange(x4, x5) == head
            &&& all.subrange(x5, x6) == data
            &&& all.subrange(x6, x7) == tail
        }),
{
    let all = a + o1 + o2 + o3 + head + data + tail + rest;
    let x1 = a.len() as int;
    let x2 = x1 + o1.len();
    let x3 = x2 + o2.len();
    let x4 = x3 + o3.len();
    let x5 = x4 + head.len();
    let x6 = x5 + data.len();
    let x7 = x6 + tail.len();
    assert(all.subrange(x1, x2) =~= o1);
    assert(all.subrange(x2, x3) =~= o2);
    assert(all.subrange(x3, x4) =~= o3);
    assert(all.subrange(x4, x5) =~= head);
    assert(all.subrange(x5, x6) =~= data);
    assert(all.subrange(x6, x7) =~= tail);
}

/// The beginning of a part stands where the part does.
proof fn lemma_beginning(all: Seq<u8>, from: int, part: Seq<u8>, line: Seq<u8>, rest: Seq<u8>)
    requires
        0 <= from,
        from + part.len() <= all.len(),
        all.subrange(from, (from + part.len()) as int) == part,
        part == line + rest,
    ensures
        all.subrange(from, (from + line.len()) as int) == line,
{
    let window = all.subrange(from, (from + part.len()) as int);
    let found = all.subrange(from, (from + line.len()) as int);
    assert forall|i: int| 0 <= i < line.len() implies found[i] == line[i] by {
        assert(window[i] == part[i]);
    }
    assert(found =~= line);
}

proof fn lemma_document_parts(page: Artwork, p: nat)
    ensures
        ({
            let o1 = object(1, catalog());
            let o2 = object(2, page_tree());
            let o3 = object(3, page_dict(page.width as int, page.height as int, p));
            let data = stream(page, p);
            let head = stream_head(data.len());
            let all = document(page, p);
            let x1 = offset(page, p, 1) as int;
            let x2 = offset(page, p, 2) as int;
            let x3 = offset(page, p, 3) as int;
            let x4 = offset(page, p, 4) as int;
            let x5 = x4 + head.len();
            let x6 = x5 + data.len();
            let x7 = x6 + stream_tail().len();
            &&& x1 + o1.len() == x2
            &&& x2 + o2.len() == x3
            &&& x3 + o3.len() == x4
            &&& x7 <= all.len()
            &&& all.subrange(x1, x2) == o1
            &&& all.subrange(x2, x3) == o2
            &&& all.subrange(x3, x4) == o3
            &&& all.subrange(x4, x5) == head
            &&& all.subrange(x5, x6) == data
            &&& all.subrange(x6, x7) == stream_tail()
        }),
{
    let o1 = object(1, catalog());
    let o2 = object(2, page_tree());
    let o3 = object(3, page_dict(page.width as int, page.height as int, p));
    let data = stream(page, p);
    let head = stream_head(data.len());
    let table = xref_table(page, p);
    let end = trailer(objects(page, p).len());
    lemma_parts(opening(), o1, o2, o3, head, data, stream_tail(), table + end);
    let front = objects(page, p);
    assert(front + (table + end) =~= (front + table) + end);
}

/// Every recorded offset is where that object's first line stands.
pub proof fn law_offsets_point_at_their_objects(page: Artwork, p: nat, n: nat)
    requires
        1 <= n <= 4,
    ensures
        offset(page, p, n as int) + object_line(n).len() <= document(page, p).len(),
        document(page, p).subrange(
            offset(page, p, n as int) as int,
            (offset(page, p, n as int) + object_line(n).len()) as int,
        ) == object_line(n),
{
    lemma_document_parts(page, p);
    let all = document(page, p);
    let line = object_line(n);
    let from = offset(page, p, n as int) as int;
    if n == 4 {
        let len = stream(page, p).len();
        let rest = encode_utf8("<< /Length "@ + decimal(len) + " >>\nstream\n"@);
        assert(stream_head(len) == line + rest);
        lemma_beginning(all, from, stream_head(len), line, rest);
    } else {
        let body = if n == 1 {
            catalog()
        } else if n == 2 {
            page_tree()
        } else {
            page_dict(page.width as int, page.height as int, p)
        };
        let rest = encode_utf8(body) + encode_utf8("\nendobj\n"@);
        assert(object(n, body) =~= line + rest);
        lemma_beginning(all, from, object(n, body), line, rest);
    }
}

/// The declared length of the stream is the number of bytes between its
/// markers.
pub proof fn law_declared_length_is_the_stream(page: Artwork, p: nat)
    ensures
        ({
            let len = stream(page, p).len();
            let at = (offset(page, p, 4) + stream_head(len).len()) as int;
            let all = document(page, p);
            &&& at + len + stream_tail().len() <= all.len()
            &&& all.subrange(offset(page, p, 4) as int, at) == stream_head(len)
            &&& all.subrange(at, at + len) == stream(page, p)
            &&& all.subrange(at + len, (at + len + stream_tail().len()) as int) == stream_tail()
        }),
{
    lemma_document_parts(page, p);
}

/// The number after `startxref` is where the table stands, and the file ends
/// with the trailer that holds it.
pub proof fn law_startxref_points_at_the_table(page: Artwork, p: nat)
    ensures
        ({
            let at = objects(page, p).len() as int;
            let all = document(page, p);
            let table = xref_table(page, p).len() as int;
            &&& at + table <= all.len()
            &&& all.subrange(at, at + table) == xref_table(page, p)
            &&& all.subrange(at + table, all.len() as int) == trailer(at as nat)
        }),
{
    let at = objects(page, p).len() as int;
    let all = document(page, p);
    let table = xref_table(page, p).len() as int;
    assert(all.subrange(at, at + table) =~= xref_table(page, p));
    assert(all.subrange(at + table, all.len() as int) =~= trailer(at as nat));
}

/// A table entry is exactly 20 bytes for every offset of ten digits.
pub proof fn law_entries_are_twenty_bytes(off: nat)
    requires
        off < 10_000_000_000,
    ensures
        xref_entry(off).len() == 20,
{
    let s = ten_digits(off) + " 00000 n \n"@;
    lemma_last_digits_len(off, 10);
    lemma_last_digits_digits(off, 10);
    reveal_strlit(" 00000 n \n");
    assert(is_ascii_chars(s));
    is_ascii_chars_encode_utf8(s);
}

/// The page is as large as the artwork: its box runs from the origin to its width and its
/// height, in that order.
pub proof fn law_page_is_as_large_as_the_artwork(w: int, h: int, p: nat)
    ensures
        ({
            let lead = "<< /Type /Page /Parent 2 0 R /MediaBox [0 0 "@.len() as int;
            let wide = numeral(w, p);
            let tall = numeral(h, p);
            let text = page_dict(w, h, p);
            let next = lead + wide.len() + 1;
            &&& text.subrange(lead, lead + wide.len()) == wide
            &&& text[lead + wide.len()] == ' '
            &&& text.subrange(next, next + tall.len()) == tall
            &&& text[next + tall.len()] == ']'
        }),
{
    reveal_strlit("<< /Type /Page /Parent 2 0 R /MediaBox [0 0 ");
    reveal_strlit(" ");
    reveal_strlit("] /Contents 4 0 R /Resources << /ProcSet [/PDF] >> >>");
    let lead = "<< /Type /Page /Parent 2 0 R /MediaBox [0 0 "@.len() as int;
    let wide = numeral(w, p);
    let tall = numeral(h, p);
    let text = page_dict(w, h, p);
    let next = lead + wide.len() + 1;
    assert(text.subrange(lead, lead + wide.len()) =~= wide);
    assert(text.subrange(next, next + tall.len()) =~= tall);
}

} // verus!
