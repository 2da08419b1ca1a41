use sch_pdf_compare::pdf::{assemble_pdf, SheetContent};

fn sheet(media: &str, content: &str) -> SheetContent {
    SheetContent { media_box: media.to_string(), content: content.to_string() }
}

fn find(hay: &[u8], needle: &[u8]) -> Option<usize> {
    hay.windows(needle.len()).position(|w| w == needle)
}

#[test]
fn an_assembled_pdf_points_at_its_own_objects() {
    let sheets = vec![
        sheet("842 595", "1 w 0 G\n10 10 m 100 100 l S\n"),
        sheet("842 595", "BT /F1 10 Tf 50 50 Td (R1 \\(10k\\)) Tj ET\n"),
    ];
    let pdf = assemble_pdf(&sheets);
    assert!(pdf.starts_with(b"%PDF-1.4\n%\xe2\xe3\xcf\xd3\n"));
    assert!(pdf.ends_with(b"\n%%EOF\n"));

    // The table lists the free entry and then seven objects.
    let xref_at = find(&pdf, b"xref\n0 8\n").expect("a cross-reference table");
    let table = &pdf[xref_at..];
    let rows: Vec<&[u8]> = table.split(|&b| b == b'\n').skip(2).take(8).collect();
    assert_eq!(rows[0], b"0000000000 65535 f ");
    for (n, row) in rows.iter().enumerate().skip(1) {
        let text = std::str::from_utf8(row).unwrap();
        assert_eq!(text.len(), 19, "{text}");
        assert!(text.ends_with(" 00000 n "));
        let at: usize = text[..10].parse().unwrap();
        let head = format!("{n} 0 obj\n");
        assert_eq!(&pdf[at..at + head.len()], head.as_bytes(), "object {n}");
    }

    // startxref names where the table begins.
    let tail = std::str::from_utf8(&pdf[xref_at..]).unwrap();
    let start: usize = tail.split("startxref\n").nth(1).unwrap().lines().next().unwrap().parse().unwrap();
    assert_eq!(start, xref_at);

    // The page tree lists the two pages, and each stream says its length.
    assert!(find(&pdf, b"<< /Type /Pages /Kids [4 0 R 6 0 R] /Count 2 >>").is_some());
    assert!(find(&pdf, b"/MediaBox [0 0 842 595] /Resources << /Font << /F1 3 0 R >> >> /Contents 5 0 R >>").is_some());
    assert!(find(&pdf, b"<< /Length 28 >>\nstream\n1 w 0 G\n10 10 m 100 100 l S\nendstream").is_some());
    assert!(find(&pdf, b"trailer\n<< /Size 8 /Root 1 0 R >>").is_some());
}

#[test]
fn a_pdf_of_no_sheets_has_the_three_fixed_objects() {
    let pdf = assemble_pdf(&[]);
    let text = String::from_utf8_lossy(&pdf);
    assert!(text.contains("2 0 obj\n<< /Type /Pages /Kids [] /Count 0 >>\nendobj\n"));
    assert!(text.contains("xref\n0 4\n0000000000 65535 f \n0000000015 00000 n \n"));
}
