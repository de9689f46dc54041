use rust_hover_preview::file_kind::is_text_preview_file;
use rust_hover_preview::preview::{
    set_opaque_alpha, text_preview_content, text_preview_size, TextPreviewFrame, MAX_TEXT_BYTES,
};
use rust_hover_preview::text_decode::{decode_text, decode_utf16, looks_binary};
use rust_hover_preview::text_layout::{expand_tabs, preview_rows, TextLayout};

#[test]
fn recognizes_source_and_extensionless_build_files() {
    assert!(is_text_preview_file("main.rs"));
    assert!(is_text_preview_file("Dockerfile"));
    assert!(is_text_preview_file(".gitignore"));
    assert!(!is_text_preview_file("photo.png"));
}

#[test]
fn decodes_utf8_and_utf16() {
    assert_eq!(decode_text(b"hello").unwrap().0, "hello");
    assert_eq!(decode_text(&[0xff, 0xfe, b'h', 0, b'i', 0]).unwrap().0, "hi");
}

#[test]
fn rejects_binary_content() {
    assert!(decode_text(b"hello\0world").is_none());
}

#[test]
fn expands_tabs_to_four_column_stops() {
    assert_eq!(expand_tabs("a\tb"), "a   b");
    assert_eq!(expand_tabs("abcd\tb"), "abcd    b");
}

#[test]
fn text_files_are_recognized_in_any_case_and_directory() {
    assert!(is_text_preview_file("NOTES.TXT"));
    assert!(is_text_preview_file("C:\\Users\\me\\src\\Main.Rs"));
    assert!(is_text_preview_file("/home/me/project/Makefile"));
    assert!(is_text_preview_file("dir/sub/README"));
    assert!(is_text_preview_file("archive.tar.json"));
    assert!(is_text_preview_file("folder/notes.md/"));
    assert!(is_text_preview_file("folder/notes.md/."));
    assert!(is_text_preview_file(".ENV"));
    assert!(!is_text_preview_file("image.jpeg"));
    assert!(!is_text_preview_file("folder/notes.md/.."));
    assert!(!is_text_preview_file(""));
    assert!(!is_text_preview_file("/"));
    assert!(!is_text_preview_file("C:"));
    assert!(!is_text_preview_file("txt"));
    assert!(!is_text_preview_file(".txt"));
    assert!(!is_text_preview_file("notes."));
    assert!(!is_text_preview_file("readme.me"));
}

#[test]
fn windows_prefixes_are_not_file_names() {
    // A share prefix has no file name of its own.
    assert!(!is_text_preview_file("\\\\server\\readme"));
    assert!(!is_text_preview_file("\\\\server/readme"));
    assert!(!is_text_preview_file("//server/readme"));
    assert!(is_text_preview_file("\\\\server\\share\\readme"));
    assert!(is_text_preview_file("//server/share/notes.txt"));
    // Without a share, two separators start an ordinary rooted path.
    assert!(is_text_preview_file("\\\\readme"));
    // Device paths.
    assert!(!is_text_preview_file("\\\\.\\readme"));
    assert!(is_text_preview_file("\\\\.\\C:\\notes.txt"));
    // Verbatim paths: only a backslash separates components.
    assert!(!is_text_preview_file("\\\\?\\C:\\dir/readme"));
    assert!(is_text_preview_file("\\\\?\\C:\\dir\\readme"));
    assert!(is_text_preview_file("\\\\?\\C:\\dir/notes.md"));
    assert!(!is_text_preview_file("\\\\?\\C:\\notes.md\\."));
    assert!(is_text_preview_file("C:\\notes.md\\."));
    assert!(!is_text_preview_file("\\\\?\\UNC\\server\\readme"));
    assert!(is_text_preview_file("\\\\?\\UNC\\server\\share\\readme"));
    assert!(!is_text_preview_file("\\\\?\\readme"));
    assert!(is_text_preview_file("\\\\?\\vol\\readme"));
    // A drive with no root.
    assert!(is_text_preview_file("C:notes.txt"));
}

#[test]
fn decodes_each_encoding_with_its_label() {
    let (text, encoding) = decode_text(&[0xef, 0xbb, 0xbf, b'o', b'k']).unwrap();
    assert_eq!((text.as_str(), encoding), ("ok", "UTF-8"));

    let (text, encoding) = decode_text(&[0xfe, 0xff, 0, b'h', 0, b'i']).unwrap();
    assert_eq!((text.as_str(), encoding), ("hi", "UTF-16 BE"));

    let (text, encoding) = decode_text(&[0xff, 0xfe, 0x3d, 0xd8, 0x00, 0xde]).unwrap();
    assert_eq!((text.as_str(), encoding), ("\u{1f600}", "UTF-16 LE"));

    let (text, encoding) = decode_text("caf\u{e9}".as_bytes()).unwrap();
    assert_eq!((text.as_str(), encoding), ("caf\u{e9}", "UTF-8"));

    let (text, encoding) = decode_text(&[b'c', b'a', b'f', 0xe9, 0x80]).unwrap();
    assert_eq!((text.as_str(), encoding), ("caf\u{e9}\u{20ac}", "Windows-1252"));
}

#[test]
fn odd_utf16_and_lone_surrogates() {
    assert!(decode_text(&[0xff, 0xfe, b'h']).is_none());
    assert_eq!(decode_utf16(&[b'h'], true), None);
    assert_eq!(decode_utf16(&[0x00, 0xd8, b'a', 0], true).unwrap(), "\u{fffd}a");
    assert_eq!(decode_utf16(&[0xdc, 0x00, 0, b'a'], false).unwrap(), "\u{fffd}a");
    assert_eq!(decode_utf16(&[], true).unwrap(), "");
}

#[test]
fn binary_detection_counts_controls_in_the_first_characters() {
    assert!(!looks_binary(""));
    assert!(!looks_binary("line one\r\nline two\ttabbed\n"));
    assert!(looks_binary("a\0"));
    // One control in ten characters is not more than a tenth.
    assert!(!looks_binary("\u{1}bcdefghij"));
    assert!(looks_binary("\u{1}\u{2}cdefghij"));
    // Only the first 4096 characters are counted.
    let mut late_controls = "a".repeat(4096);
    late_controls.push_str(&"\u{1}".repeat(5000));
    assert!(!looks_binary(&late_controls));
}

#[test]
fn tabs_and_controls_in_rendered_lines() {
    assert_eq!(expand_tabs("\tx"), "    x");
    assert_eq!(expand_tabs("abc\t\tz"), "abc     z");
    assert_eq!(expand_tabs("a\r\u{7}b"), "ab");
    assert_eq!(expand_tabs("plain"), "plain");
    let long = "x".repeat(1000);
    assert_eq!(expand_tabs(&long).chars().count(), 400);
    let tabbed = format!("{}\tend", "y".repeat(399));
    assert_eq!(expand_tabs(&tabbed), format!("{} ", "y".repeat(399)));
}

#[test]
fn rows_are_numbered_and_limited_to_the_visible_lines() {
    let rows = preview_rows("fn main() {\n\tprintln!(\"hi\");\r\n}\n", 10, 3);
    assert_eq!(rows.len(), 3);
    assert_eq!(rows[0].number, "  1");
    assert_eq!(rows[0].code, "fn main() {");
    assert_eq!(rows[1].code, "    println!(\"hi\");");
    assert_eq!(rows[2].number, "  3");
    assert_eq!(rows[2].code, "}");

    let rows = preview_rows("a\nb\nc\nd", 2, 4);
    assert_eq!(rows.len(), 2);
    assert_eq!(rows[1].number, "   2");

    assert_eq!(preview_rows("", 5, 3).len(), 0);
    let rows = preview_rows("a\n\nb\r", 5, 3);
    let codes: Vec<&str> = rows.iter().map(|row| row.code.as_str()).collect();
    assert_eq!(codes, vec!["a", "", "b"]);
}

#[test]
fn layout_of_a_page() {
    let layout = TextLayout::new(320, 9);
    assert_eq!(layout.header_height, 42);
    assert_eq!(layout.footer_height, 28);
    assert_eq!(layout.content_top, 52);
    assert_eq!(layout.content_bottom, 284);
    assert_eq!(layout.visible_lines, 11);
    assert_eq!(layout.number_digits, 3);
    assert_eq!(layout.gutter_width, 45);
    assert_eq!(layout.row_top(2), 92);

    let tiny = TextLayout::new(30, 2);
    assert_eq!(tiny.header_height, 30);
    assert_eq!(tiny.footer_height, 0);
    assert_eq!(tiny.visible_lines, 0);
    assert_eq!(tiny.number_digits, 3);
    assert_eq!(tiny.gutter_width, 40);

    let tall = TextLayout::new(30_000, 10);
    assert_eq!(tall.visible_lines, 1495);
    assert_eq!(tall.number_digits, 4);
    assert_eq!(tall.gutter_width, 60);
}

#[test]
fn preview_size_fits_the_room() {
    assert_eq!(text_preview_size(2000, 2000), (900, 650));
    assert_eq!(text_preview_size(480, 320), (480, 320));
    assert_eq!(text_preview_size(0, 0), (1, 1));
}

#[test]
fn preview_content_reports_encoding_and_truncation() {
    let content = text_preview_content(b"hello", Some(5));
    assert_eq!(content.text, "hello");
    assert_eq!(content.status, "UTF-8");

    let content = text_preview_content(b"hello", Some(10_000_000));
    assert_eq!(content.text, "hello");
    assert_eq!(content.status, "UTF-8 \u{b7} showing first 512 KB");

    let mut long = vec![b'a'; MAX_TEXT_BYTES + 1];
    long[0] = b'b';
    let content = text_preview_content(&long, None);
    assert_eq!(content.text.len(), MAX_TEXT_BYTES);
    assert!(content.status.ends_with("showing first 512 KB"));

    let content = text_preview_content(b"\0\0\0", None);
    assert_eq!(content.text, "Binary content is not displayed.");
    assert_eq!(content.status, "Not a text file");
}

#[test]
fn frames_are_made_opaque() {
    let mut pixels = vec![1u8, 2, 3, 4, 5, 6, 7, 8, 9, 10];
    set_opaque_alpha(&mut pixels);
    assert_eq!(pixels, vec![1, 2, 3, 255, 5, 6, 7, 255, 9, 10]);

    let frame = TextPreviewFrame::from_drawn_pixels(vec![0; 2 * 3 * 4], 2, 3);
    assert_eq!(frame.pixels.len(), 24);
    assert!(frame.pixels.chunks_exact(4).all(|pixel| pixel == [0, 0, 0, 255]));
    assert_eq!((frame.width, frame.height), (2, 3));
}

#[test]
fn utf16_bytes_of_any_text_decode_back() {
    let text = "h\u{e9}llo \u{1f600} \u{4e16}\u{754c}\t!";
    let units: Vec<u16> = text.encode_utf16().collect();
    let little: Vec<u8> = units.iter().flat_map(|unit| unit.to_le_bytes()).collect();
    let big: Vec<u8> = units.iter().flat_map(|unit| unit.to_be_bytes()).collect();
    assert_eq!(decode_utf16(&little, true).unwrap(), text);
    assert_eq!(decode_utf16(&big, false).unwrap(), text);
}

#[test]
fn valid_utf8_after_a_bom_is_kept() {
    assert_eq!(
        decode_text(&[0xef, 0xbb, 0xbf, b'h', b'i']),
        Some(("hi".to_string(), "UTF-8"))
    );
    assert_eq!(decode_text(b""), Some((String::new(), "UTF-8")));
    assert_eq!(
        decode_text(&[0x80]),
        Some(("\u{20ac}".to_string(), "Windows-1252"))
    );
    assert_eq!(
        decode_text(&[0x9f, 0x8a, 0xa0, 0x41]),
        Some(("\u{178}\u{160}\u{a0}A".to_string(), "Windows-1252"))
    );
}

#[test]
fn malformed_utf8_after_a_bom_is_replaced() {
    let (text, encoding) = decode_text(&[0xef, 0xbb, 0xbf, b'o', 0xff, b'k']).unwrap();
    assert_eq!(text, "o\u{fffd}k");
    assert_eq!(encoding, "UTF-8");
}

#[test]
fn decoded_text_never_holds_nul() {
    assert!(decode_text(&[0xff, 0xfe, 0, 0]).is_none());
    assert!(decode_text(&[0xef, 0xbb, 0xbf, 0]).is_none());
    assert!(decode_text(&[0, 0x80]).is_none());
}

#[test]
fn plain_lines_and_tab_stops() {
    assert_eq!(expand_tabs("no tabs here"), "no tabs here");
    for prefix_len in 0..12 {
        let prefix = "p".repeat(prefix_len);
        let expanded = expand_tabs(&format!("{}\t", prefix));
        let columns = expanded.chars().count();
        assert_eq!(columns % 4, 0);
        assert!(columns > prefix_len && columns <= prefix_len + 4);
        assert!(expanded.starts_with(&prefix));
    }
}

#[test]
fn line_numbers_fill_the_number_column() {
    let layout = TextLayout::new(30_000, 10);
    let text = "x\n".repeat(2000);
    let rows = preview_rows(&text, layout.visible_lines, layout.number_digits);
    assert_eq!(rows.len(), layout.visible_lines);
    assert!(rows
        .iter()
        .all(|row| row.number.chars().count() == layout.number_digits));
    assert_eq!(rows[0].number, "   1");
    assert_eq!(rows[layout.visible_lines - 1].number, "1495");
}

#[test]
fn opaque_alpha_twice_is_opaque_alpha_once() {
    let mut once = vec![9u8, 8, 7, 6, 5, 4, 3, 2];
    set_opaque_alpha(&mut once);
    let mut twice = once.clone();
    set_opaque_alpha(&mut twice);
    assert_eq!(once, twice);
    assert_eq!(once, vec![9, 8, 7, 255, 5, 4, 3, 255]);
}
