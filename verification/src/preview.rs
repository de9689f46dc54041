use vstd::prelude::*;
use crate::text_decode::{decode_text, decoded_text};
use vstd::slice::slice_subrange;

verus! {

/// Width of a text preview page, in pixels, when the screen allows it.
pub const TEXT_PREVIEW_WIDTH: u32 = 900;

/// Height of a text preview page, in pixels, when the screen allows it.
pub const TEXT_PREVIEW_HEIGHT: u32 = 650;

/// At most this many bytes of a file are shown.
pub const MAX_TEXT_BYTES: usize = 512 * 1024;

// ---------------------------------------------------------------------------
// What the page shows

/// The text of a preview page and its status line.
pub struct TextPreviewContent {
    pub text: String,
    pub status: String,
}

/// Whether the preview shows only the start of the file: more bytes were read
/// than are shown, or the file is known to be larger.
pub open spec fn is_truncated(read: nat, file_size: Option<u64>) -> bool {
    read > MAX_TEXT_BYTES || (file_size matches Some(size) && size > MAX_TEXT_BYTES)
}

/// The bytes that are decoded: at most the first `MAX_TEXT_BYTES`.
pub open spec fn shown_bytes(bytes: Seq<u8>) -> Seq<u8> {
    if bytes.len() > MAX_TEXT_BYTES {
        bytes.take(MAX_TEXT_BYTES as int)
    } else {
        bytes
    }
}

/// The status line of a page whose text was decoded with `encoding`.
pub open spec fn status_line(encoding: Seq<char>, truncated: bool) -> Seq<char> {
    if truncated {
        encoding + " \u{b7} showing first 512 KB"@
    } else {
        encoding
    }
}

/// What a page shows of a file whose first bytes were read as `bytes`: the
/// decoded text with the encoding (and, when only the start is shown, a note
/// saying so) in the status line; or, for binary content, a notice instead of
/// the text.
pub open spec fn preview_content(bytes: Seq<u8>, file_size: Option<u64>) -> (Seq<char>, Seq<char>) {
    match decoded_text(shown_bytes(bytes)) {
        Some((text, encoding)) => (text, status_line(encoding, is_truncated(bytes.len(), file_size))),
        None => ("Binary content is not displayed."@, "Not a text file"@),
    }
}

/// The text and status line of a preview of a file whose first bytes were read
/// into `bytes` (the reader reads one byte more than is shown, so that a longer
/// file is seen to be longer) and whose size, when known, is `file_size`.
pub fn text_preview_content(bytes: &[u8], file_size: Option<u64>) -> (content: TextPreviewContent)
    ensures
        (content.text@, content.status@) == preview_content(bytes@, file_size),
{
    let truncated = bytes.len() > MAX_TEXT_BYTES || match file_size {
        Some(size) => size > MAX_TEXT_BYTES as u64,
        None => false,
    };
    let shown = if bytes.len() > MAX_TEXT_BYTES {
        slice_subrange(bytes, 0, MAX_TEXT_BYTES)
    } else {
        bytes
    };
    assert(shown@ == shown_bytes(bytes@));
    match decode_text(shown) {
        Some((text, encoding)) => {
            let mut status = String::from_str(encoding);
            if truncated {
                status.append(" \u{b7} showing first 512 KB");
            }
            TextPreviewContent { text, status }
        },
        None => TextPreviewContent {
            text: String::from_str("Binary content is not displayed."),
            status: String::from_str("Not a text file"),
        },
    }
}

/// The status line carries the truncation note exactly when the file was cut:
/// a file of which at most 512 KiB were read, and whose known size is at most
/// 512 KiB, shows its whole decoded text with just the encoding name; a file
/// that was read past 512 KiB, or is known to be larger, shows the decoding of
/// its first 512 KiB with the note after the encoding name.
pub proof fn status_notes_truncation_exactly_when_cut(bytes: Seq<u8>, file_size: Option<u64>)
    ensures
        bytes.len() <= 512 * 1024 && (file_size matches Some(n) ==> n <= 512 * 1024) && decoded_text(bytes)
            is Some ==> preview_content(bytes, file_size) == decoded_text(bytes)->0,
        ({
            let shown = if bytes.len() <= 512 * 1024 {
                bytes
            } else {
                bytes.take(512int * 1024)
            };
            (bytes.len() > 512 * 1024 || (file_size matches Some(n) && n > 512 * 1024)) ==> match decoded_text(shown) {
                Some((text, encoding)) => preview_content(bytes, file_size) == (
                    text,
                    encoding + " \u{b7} showing first 512 KB"@,
                ),
                None => true,
            }
        }),
{
}

/// The side of a page, in pixels: the preferred size, made smaller to fit the
/// room there is, and at least one pixel.
pub open spec fn fitted_side(preferred: u32, room: u32) -> u32 {
    let side = if room < preferred {
        room
    } else {
        preferred
    };
    if side < 1 {
        1
    } else {
        side
    }
}

/// Width and height of a text preview page that must fit in
/// `max_width` by `max_height` pixels.
pub fn text_preview_size(max_width: u32, max_height: u32) -> (size: (u32, u32))
    ensures
        size == (fitted_side(TEXT_PREVIEW_WIDTH, max_width), fitted_side(TEXT_PREVIEW_HEIGHT, max_height)),
{
    let width = if max_width < TEXT_PREVIEW_WIDTH {
        max_width
    } else {
        TEXT_PREVIEW_WIDTH
    };
    let height = if max_height < TEXT_PREVIEW_HEIGHT {
        max_height
    } else {
        TEXT_PREVIEW_HEIGHT
    };
    (if width < 1 {
        1
    } else {
        width
    }, if height < 1 {
        1
    } else {
        height
    })
}

// ---------------------------------------------------------------------------
// The rendered page

/// A rendered page: `width` by `height` pixels of four bytes each, in blue,
/// green, red, alpha order.
pub struct TextPreviewFrame {
    pub pixels: Vec<u8>,
    pub width: u32,
    pub height: u32,
}

/// `pixels` with the alpha byte (the fourth of each whole group of four) set
/// to 255 and every other byte as it was.
pub open spec fn with_opaque_alpha(pixels: Seq<u8>) -> Seq<u8> {
    Seq::new(
        pixels.len(),
        |i: int|
            if i % 4 == 3 {
                255u8
            } else {
                pixels[i]
            },
    )
}

/// Makes every pixel of a buffer fully opaque, leaving its colour as it is.
pub fn set_opaque_alpha(pixels: &mut Vec<u8>)
    ensures
        final(pixels)@ == with_opaque_alpha(old(pixels)@),
{
    let n = pixels.len();
    let ghost before = pixels@;
    let chunks = n / 4;
    for c in 0..chunks
        invariant
            n == pixels@.len() == before.len(),
            chunks == n / 4,
            forall|k: int| 0 <= k < n ==> #[trigger] pixels@[k] == if k % 4 == 3 && k < 4 * c {
                255u8
            } else {
                before[k]
            },
    {
        pixels.set(4 * c + 3, 255);
    }
    assert forall|k: int| 0 <= k < n implies #[trigger] pixels@[k] == with_opaque_alpha(before)[k] by {
        if k % 4 == 3 {
            assert(k < 4 * chunks);
        }
    }
    assert(pixels@ =~= with_opaque_alpha(before));
}

impl TextPreviewFrame {
    /// A frame of the pixels that were drawn, made fully opaque.
    pub fn from_drawn_pixels(pixels: Vec<u8>, width: u32, height: u32) -> (frame: TextPreviewFrame)
        ensures
            frame.pixels@ == with_opaque_alpha(pixels@),
            frame.width == width,
            frame.height == height,
    {
        let mut pixels = pixels;
        set_opaque_alpha(&mut pixels);
        TextPreviewFrame { pixels, width, height }
    }
}


/// Making a buffer opaque sets the fourth byte of every pixel to 255 and
/// touches no colour byte; doing it a second time changes nothing.
pub proof fn opaque_alpha_is_idempotent(pixels: Seq<u8>)
    ensures
        with_opaque_alpha(pixels).len() == pixels.len(),
        forall|i: int| 0 <= i < pixels.len() && i % 4 == 3 ==> #[trigger] with_opaque_alpha(pixels)[i] == 255,
        with_opaque_alpha(with_opaque_alpha(pixels)) == with_opaque_alpha(pixels),
        forall|i: int| 0 <= i < pixels.len() && i % 4 != 3 ==> #[trigger] with_opaque_alpha(pixels)[i] == pixels[i],
{
    assert(with_opaque_alpha(with_opaque_alpha(pixels)) =~= with_opaque_alpha(pixels));
}


/// Each side of the page is the preferred side or the room there is, whichever
/// is smaller, but at least one pixel: never more than the preferred side, never
/// more than the room (when there is any), all of the preferred side when there
/// is room for it, and all of the room when there is less. So a page is never
/// wider than 900 or taller than 650 pixels.
pub proof fn page_side_fits_the_room(preferred: u32, room: u32)
    requires
        preferred >= 1,
    ensures
        1 <= fitted_side(preferred, room) <= preferred,
        room >= 1 ==> fitted_side(preferred, room) <= room,
        room >= preferred ==> fitted_side(preferred, room) == preferred,
        1 <= room <= preferred ==> fitted_side(preferred, room) == room,
        room == 0 ==> fitted_side(preferred, room) == 1,
        1 <= fitted_side(TEXT_PREVIEW_WIDTH, room) <= 900,
        1 <= fitted_side(TEXT_PREVIEW_HEIGHT, room) <= 650,
        room >= 900 ==> fitted_side(TEXT_PREVIEW_WIDTH, room) == 900,
        room >= 650 ==> fitted_side(TEXT_PREVIEW_HEIGHT, room) == 650,
{
}

} // verus!
