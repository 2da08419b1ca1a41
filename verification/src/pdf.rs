//! Minimal PDFs, assembled byte by byte, for tests that need a document of
//! their own: every object is numbered in order and the cross-reference table
//! holds each object's real byte position.

use vstd::prelude::*;
use vstd::utf8::encode_utf8;

use crate::text::{dec, push_char, push_count};

verus! {

/// One sheet of a document to assemble, already written out as PDF text.
pub struct SheetContent {
    /// The sheet's width and height in PDF units, separated by a space.
    pub media_box: String,
    /// The sheet's content stream.
    pub content: String,
}

/// The bytes of some text, in UTF-8.
pub open spec fn enc(s: Seq<char>) -> Seq<u8> {
    encode_utf8(s)
}

/// The version line, then a comment of bytes past ASCII, so anything that
/// transfers the file treats it as binary.
pub open spec fn pdf_head() -> Seq<u8> {
    enc("%PDF-1.4\n"@) + seq![0x25u8, 0xe2u8, 0xe3u8, 0xcfu8, 0xd3u8, 0x0au8]
}

/// Object `n`, holding `body`.
pub open spec fn obj(n: int, body: Seq<u8>) -> Seq<u8> {
    enc(dec(n)) + enc(" 0 obj\n"@) + body + enc("\nendobj\n"@)
}

/// References to the first `k` pages, which are objects 4, 6, 8 and so on,
/// separated by spaces.
pub open spec fn kids(k: int) -> Seq<u8>
    decreases k,
{
    if k <= 0 {
        Seq::empty()
    } else if k == 1 {
        enc(dec(4)) + enc(" 0 R"@)
    } else {
        kids(k - 1) + enc(" "@) + enc(dec(4 + 2 * (k - 1))) + enc(" 0 R"@)
    }
}

/// The document catalog, object 1.
pub open spec fn catalog_body() -> Seq<u8> {
    enc("<< /Type /Catalog /Pages 2 0 R >>"@)
}

/// The page tree of `n` pages, object 2.
pub open spec fn pages_body(n: int) -> Seq<u8> {
    enc("<< /Type /Pages /Kids ["@) + kids(n) + enc("] /Count "@) + enc(dec(n)) + enc(" >>"@)
}

/// The font every sheet uses, object 3.
pub open spec fn font_body() -> Seq<u8> {
    enc("<< /Type /Font /Subtype /Type1 /BaseFont /Helvetica /Encoding /WinAnsiEncoding >>"@)
}

/// Page `i` (from 0), whose content stream is the object after it.
pub open spec fn page_body(i: int, media: Seq<char>) -> Seq<u8> {
    enc("<< /Type /Page /Parent 2 0 R /MediaBox [0 0 "@) + enc(media) + enc(
        "] /Resources << /Font << /F1 3 0 R >> >> /Contents "@,
    ) + enc(dec(5 + 2 * i)) + enc(" 0 R >>"@)
}

/// A content stream, with its length in bytes.
pub open spec fn stream_body(c: Seq<char>) -> Seq<u8> {
    enc("<< /Length "@) + enc(dec(enc(c).len() as int)) + enc(" >>\nstream\n"@) + enc(c) + enc("endstream"@)
}

/// What object `j + 1` holds: the catalog, the page tree and the font, then
/// each sheet's page followed by its content stream.
pub open spec fn body_of(sheets: Seq<SheetContent>, j: int) -> Seq<u8> {
    if j == 0 {
        catalog_body()
    } else if j == 1 {
        pages_body(sheets.len() as int)
    } else if j == 2 {
        font_body()
    } else if (j - 3) % 2 == 0 {
        page_body((j - 3) / 2, sheets[(j - 3) / 2].media_box@)
    } else {
        stream_body(sheets[(j - 3) / 2].content@)
    }
}

/// The first `k` objects, in order.
pub open spec fn objects(sheets: Seq<SheetContent>, k: int) -> Seq<u8>
    decreases k,
{
    if k <= 0 {
        Seq::empty()
    } else {
        objects(sheets, k - 1) + obj(k, body_of(sheets, k - 1))
    }
}

/// Where object `j + 1` starts in the file.
pub open spec fn offset(sheets: Seq<SheetContent>, j: int) -> int {
    (pdf_head().len() + objects(sheets, j).len()) as int
}

/// The zeros that pad `v` to the digits of every power of ten from `t` down
/// to ten that exceeds it: with `t` a billion, `v` padded to ten digits.
pub open spec fn zero_pad(v: int, t: int) -> Seq<char>
    decreases t,
{
    if t < 10 {
        Seq::empty()
    } else {
        (if v < t {
            seq!['0']
        } else {
            Seq::<char>::empty()
        }) + zero_pad(v, t / 10)
    }
}

/// The cross-reference row of an object at byte `v`.
pub open spec fn xref_row(v: int) -> Seq<u8> {
    enc(zero_pad(v, 1_000_000_000)) + enc(dec(v)) + enc(" 00000 n \n"@)
}

/// The cross-reference rows of the first `k` objects.
pub open spec fn xref_rows(sheets: Seq<SheetContent>, k: int) -> Seq<u8>
    decreases k,
{
    if k <= 0 {
        Seq::empty()
    } else {
        xref_rows(sheets, k - 1) + xref_row(offset(sheets, k - 1))
    }
}

/// How many objects a document of `n` sheets has.
pub open spec fn object_count(n: int) -> int {
    3 + 2 * n
}

/// The head and every object.
pub open spec fn pdf_body(sheets: Seq<SheetContent>) -> Seq<u8> {
    pdf_head() + objects(sheets, object_count(sheets.len() as int))
}

/// The whole file: the objects, the cross-reference table with the free
/// entry for object 0 first, and the trailer that points back at the table.
pub open spec fn spec_pdf(sheets: Seq<SheetContent>) -> Seq<u8> {
    let n = object_count(sheets.len() as int);
    pdf_body(sheets) + enc("xref\n0 "@) + enc(dec(n + 1)) + enc("\n"@) + enc("0000000000 65535 f \n"@)
        + xref_rows(sheets, n) + enc("trailer\n<< /Size "@) + enc(dec(n + 1)) + enc(
        " /Root 1 0 R >>\nstartxref\n"@,
    ) + enc(dec(pdf_body(sheets).len() as int)) + enc("\n%%EOF\n"@)
}

fn push_bytes(out: &mut Vec<u8>, b: &[u8])
    ensures
        final(out)@ == old(out)@ + b@,
{
    let ghost start = out@;
    let mut i: usize = 0;
    while i < b.len()
        invariant
            i <= b@.len(),
            out@ == start + b@.subrange(0, i as int),
        decreases b@.len() - i,
    {
        proof {
            assert(b@.subrange(0, i + 1) =~= b@.subrange(0, i as int).push(b@[i as int]));
        }
        out.push(b[i]);
        i = i + 1;
    }
    proof {
        assert(b@.subrange(0, b@.len() as int) =~= b@);
    }
}

fn push_text(out: &mut Vec<u8>, t: &str)
    ensures
        final(out)@ == old(out)@ + enc(t@),
{
    push_bytes(out, t.as_bytes());
}

fn push_num(out: &mut Vec<u8>, n: usize)
    ensures
        final(out)@ == old(out)@ + enc(dec(n as int)),
{
    let mut s = String::new();
    push_count(&mut s, n);
    proof {
        assert(s@ =~= dec(n as int));
    }
    push_text(out, s.as_str());
}

fn push_obj(out: &mut Vec<u8>, n: usize, body: &Vec<u8>)
    ensures
        final(out)@ == old(out)@ + obj(n as int, body@),
{
    let ghost start = out@;
    push_num(out, n);
    push_text(out, " 0 obj\n");
    push_bytes(out, body.as_slice());
    push_text(out, "\nendobj\n");
    proof {
        assert(out@ =~= start + obj(n as int, body@));
    }
}

fn text_bytes(t: &str) -> (v: Vec<u8>)
    ensures
        v@ == enc(t@),
{
    let mut v: Vec<u8> = Vec::new();
    push_text(&mut v, t);
    proof {
        assert(v@ =~= enc(t@));
    }
    v
}

fn build_pages_body(n: usize) -> (v: Vec<u8>)
    requires
        2 * n + 4 <= usize::MAX,
    ensures
        v@ == pages_body(n as int),
{
    let mut v: Vec<u8> = Vec::new();
    push_text(&mut v, "<< /Type /Pages /Kids [");
    let ghost head = v@;
    let mut k: usize = 0;
    while k < n
        invariant
            k <= n,
            2 * n + 4 <= usize::MAX,
            v@ == head + kids(k as int),
        decreases n - k,
    {
        if k > 0 {
            push_text(&mut v, " ");
        }
        push_num(&mut v, 4 + 2 * k);
        push_text(&mut v, " 0 R");
        proof {
            if k == 0 {
                assert(kids(0) =~= Seq::<u8>::empty());
                assert(v@ =~= head + kids(1));
            } else {
                assert(v@ =~= head + kids(k + 1));
            }
        }
        k = k + 1;
    }
    push_text(&mut v, "] /Count ");
    push_num(&mut v, n);
    push_text(&mut v, " >>");
    proof {
        assert(v@ =~= pages_body(n as int));
    }
    v
}

fn build_page_body(i: usize, media: &String) -> (v: Vec<u8>)
    requires
        2 * i + 5 <= usize::MAX,
    ensures
        v@ == page_body(i as int, media@),
{
    let mut v: Vec<u8> = Vec::new();
    push_text(&mut v, "<< /Type /Page /Parent 2 0 R /MediaBox [0 0 ");
    push_text(&mut v, media.as_str());
    push_text(&mut v, "] /Resources << /Font << /F1 3 0 R >> >> /Contents ");
    push_num(&mut v, 2 * i + 5);
    push_text(&mut v, " 0 R >>");
    proof {
        assert(v@ =~= page_body(i as int, media@));
    }
    v
}

fn build_stream_body(content: &String) -> (v: Vec<u8>)
    ensures
        v@ == stream_body(content@),
{
    let bytes = content.as_str().as_bytes();
    let mut v: Vec<u8> = Vec::new();
    push_text(&mut v, "<< /Length ");
    push_num(&mut v, bytes.len());
    push_text(&mut v, " >>\nstream\n");
    push_bytes(&mut v, bytes);
    push_text(&mut v, "endstream");
    proof {
        assert(v@ =~= stream_body(content@));
    }
    v
}

fn push_zero_pad(out: &mut Vec<u8>, v: usize)
    ensures
        final(out)@ == old(out)@ + enc(zero_pad(v as int, 1_000_000_000)),
{
    let mut z = String::new();
    let mut t: u64 = 1_000_000_000;
    proof {
        assert(z@ + zero_pad(v as int, t as int) =~= zero_pad(v as int, 1_000_000_000));
    }
    while t >= 10
        invariant
            t <= 1_000_000_000,
            z@ + zero_pad(v as int, t as int) == zero_pad(v as int, 1_000_000_000),
        decreases t,
    {
        let ghost before = z@;
        if (v as u64) < t {
            push_char(&mut z, '0');
        }
        proof {
            assert(z@ + zero_pad(v as int, (t / 10) as int) =~= before + zero_pad(v as int, t as int));
        }
        t = t / 10;
    }
    push_text(out, z.as_str());
    proof {
        assert(zero_pad(v as int, t as int) =~= Seq::<char>::empty());
        assert(z@ =~= zero_pad(v as int, 1_000_000_000));
    }
}

/// Appends object `k + 1`, noting where it starts.
fn push_next(out: &mut Vec<u8>, offsets: &mut Vec<usize>, Ghost(ss): Ghost<Seq<SheetContent>>, k: usize, body: &Vec<u8>)
    requires
        k + 1 <= usize::MAX,
        body@ == body_of(ss, k as int),
        old(out)@ == pdf_head() + objects(ss, k as int),
        old(offsets)@.len() == k,
        forall|j: int| 0 <= j < k ==> #[trigger] old(offsets)@[j] == offset(ss, j),
    ensures
        final(out)@ == pdf_head() + objects(ss, k + 1),
        final(offsets)@.len() == k + 1,
        forall|j: int| 0 <= j < k + 1 ==> #[trigger] final(offsets)@[j] == offset(ss, j),
{
    offsets.push(out.len());
    push_obj(out, k + 1, body);
    proof {
        assert(objects(ss, k + 1) == objects(ss, k as int) + obj(k + 1, body_of(ss, k as int)));
        assert(out@ =~= pdf_head() + objects(ss, k + 1));
    }
}

/// Appends sheet `i`'s page and content stream, noting where each starts.
fn push_sheet(out: &mut Vec<u8>, offsets: &mut Vec<usize>, sheets: &[SheetContent], i: usize)
    requires
        i < sheets@.len(),
        2 * sheets@.len() + 5 <= usize::MAX,
        old(out)@ == pdf_head() + objects(sheets@, 3 + 2 * i),
        old(offsets)@.len() == 3 + 2 * i,
        forall|j: int| 0 <= j < 3 + 2 * i ==> #[trigger] old(offsets)@[j] == offset(sheets@, j),
    ensures
        final(out)@ == pdf_head() + objects(sheets@, 5 + 2 * i),
        final(offsets)@.len() == 5 + 2 * i,
        forall|j: int| 0 <= j < 5 + 2 * i ==> #[trigger] final(offsets)@[j] == offset(sheets@, j),
{
    let ghost ss = sheets@;
    let k = 3 + 2 * i;
    let page = build_page_body(i, &sheets[i].media_box);
    assert(body_of(ss, k as int) == page_body(i as int, ss[i as int].media_box@));
    push_next(out, offsets, Ghost(ss), k, &page);
    let stream = build_stream_body(&sheets[i].content);
    assert(body_of(ss, k + 1) == stream_body(ss[i as int].content@));
    push_next(out, offsets, Ghost(ss), k + 1, &stream);
}

/// Assembles a PDF of these sheets, as the bytes of the file.
///
/// Objects 1, 2 and 3 are the catalog, the page tree and the font; each sheet
/// then has its page and its content stream, in order. The cross-reference
/// table's offsets are the real byte positions: a reader would rebuild a
/// broken table without complaint, so a file that is quietly repaired on every
/// open would not be testing what it looks like it is testing.
pub fn assemble_pdf(sheets: &[SheetContent]) -> (out: Vec<u8>)
    requires
        2 * sheets@.len() + 5 <= usize::MAX,
    ensures
        out@ == spec_pdf(sheets@),
{
    let n = sheets.len();
    let ghost ss = sheets@;
    let mut out: Vec<u8> = Vec::new();
    push_text(&mut out, "%PDF-1.4\n");
    out.push(0x25u8);
    out.push(0xe2u8);
    out.push(0xe3u8);
    out.push(0xcfu8);
    out.push(0xd3u8);
    out.push(0x0au8);
    proof {
        assert(out@ =~= pdf_head() + objects(ss, 0));
    }
    let mut offsets: Vec<usize> = Vec::new();

    offsets.push(out.len());
    let catalog = text_bytes("<< /Type /Catalog /Pages 2 0 R >>");
    push_obj(&mut out, 1, &catalog);
    proof {
        assert(out@ =~= pdf_head() + objects(ss, 1));
    }
    offsets.push(out.len());
    let pages = build_pages_body(n);
    push_obj(&mut out, 2, &pages);
    proof {
        assert(out@ =~= pdf_head() + objects(ss, 2));
    }
    offsets.push(out.len());
    let font = text_bytes("<< /Type /Font /Subtype /Type1 /BaseFont /Helvetica /Encoding /WinAnsiEncoding >>");
    push_obj(&mut out, 3, &font);
    proof {
        assert(out@ =~= pdf_head() + objects(ss, 3));
        assert forall|j: int| 0 <= j < 3 implies #[trigger] offsets@[j] == offset(ss, j) by {}
    }

    let mut i: usize = 0;
    while i < n
        invariant
            n == ss.len(),
            ss == sheets@,
            2 * n + 5 <= usize::MAX,
            i <= n,
            out@ == pdf_head() + objects(ss, 3 + 2 * i),
            offsets@.len() == 3 + 2 * i,
            forall|j: int| 0 <= j < 3 + 2 * i ==> #[trigger] offsets@[j] == offset(ss, j),
        decreases n - i,
    {
        push_sheet(&mut out, &mut offsets, sheets, i);
        i = i + 1;
    }

    let count = 3 + 2 * n;
    let ghost body = out@;
    let xref_at = out.len();
    push_text(&mut out, "xref\n0 ");
    push_num(&mut out, count + 1);
    push_text(&mut out, "\n");
    push_text(&mut out, "0000000000 65535 f \n");
    let ghost rows_start = out@;
    let mut j: usize = 0;
    while j < count
        invariant
            count == object_count(ss.len() as int),
            offsets@.len() == count,
            forall|q: int| 0 <= q < count ==> #[trigger] offsets@[q] == offset(ss, q),
            j <= count,
            out@ == rows_start + xref_rows(ss, j as int),
        decreases count - j,
    {
        let off = offsets[j];
        push_zero_pad(&mut out, off);
        push_num(&mut out, off);
        push_text(&mut out, " 00000 n \n");
        proof {
            assert(out@ =~= rows_start + xref_rows(ss, j + 1));
        }
        j = j + 1;
    }
    push_text(&mut out, "trailer\n<< /Size ");
    push_num(&mut out, count + 1);
    push_text(&mut out, " /Root 1 0 R >>\nstartxref\n");
    push_num(&mut out, xref_at);
    push_text(&mut out, "\n%%EOF\n");
    proof {
        assert(body == pdf_body(ss));
        assert(out@ =~= spec_pdf(ss));
    }
    out
}

} // verus!
