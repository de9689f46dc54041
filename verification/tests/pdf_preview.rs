use rust_hover_preview::pdf_handler::{
    pdf_handler_registration_key, registered_handler_text, resolve_pdf_handler_clsid,
    PdfPreviewHandler, PDF_XCHANGE_LEGACY_PREVIEW_HANDLER, PDF_XCHANGE_PREVIEW_HANDLER,
    POWERTOYS_PDF_PREVIEW_HANDLER,
};

#[test]
fn pdf_xchange_fallback_clsid_matches_documented_value() {
    assert_eq!(
        PDF_XCHANGE_PREVIEW_HANDLER,
        0x9b68bdf7_95f9_4a1f_851c_27d822f8e3e9_u128
    );
}

#[test]
fn explicit_handler_choices_resolve_to_their_clsids() {
    assert_eq!(
        resolve_pdf_handler_clsid(PdfPreviewHandler::PdfXChangeLegacy, None),
        PDF_XCHANGE_LEGACY_PREVIEW_HANDLER
    );
    assert_eq!(
        resolve_pdf_handler_clsid(PdfPreviewHandler::PowerToys, None),
        POWERTOYS_PDF_PREVIEW_HANDLER
    );
}

#[test]
fn windows_default_follows_the_registry_or_falls_back() {
    assert_eq!(
        resolve_pdf_handler_clsid(PdfPreviewHandler::WindowsDefault, None),
        PDF_XCHANGE_PREVIEW_HANDLER
    );
    assert_eq!(
        resolve_pdf_handler_clsid(PdfPreviewHandler::WindowsDefault, Some(42)),
        42
    );
    assert_eq!(
        resolve_pdf_handler_clsid(PdfPreviewHandler::PdfXChange, Some(42)),
        PDF_XCHANGE_PREVIEW_HANDLER
    );
}

#[test]
fn registration_keys_name_the_handler_clsids() {
    assert_eq!(
        pdf_handler_registration_key(PdfPreviewHandler::PdfXChange).as_deref(),
        Some("CLSID\\{9B68BDF7-95F9-4A1F-851C-27D822F8E3E9}")
    );
    assert_eq!(
        pdf_handler_registration_key(PdfPreviewHandler::PdfXChangeLegacy).as_deref(),
        Some("CLSID\\{DC6EFB56-9CFA-464D-8880-44885D7DC193}")
    );
    assert_eq!(
        pdf_handler_registration_key(PdfPreviewHandler::PowerToys).as_deref(),
        Some("CLSID\\{A5A41CC7-02CB-41D4-8C9B-9087040D6098}")
    );
    assert_eq!(
        pdf_handler_registration_key(PdfPreviewHandler::WindowsDefault),
        None
    );
}

#[test]
fn registry_values_are_cut_at_nul_and_trimmed() {
    let value: Vec<u16> = " {9B68BDF7-95F9-4A1F-851C-27D822F8E3E9}\t\0garbage"
        .encode_utf16()
        .collect();
    assert_eq!(
        registered_handler_text(&value).as_deref(),
        Some("{9B68BDF7-95F9-4A1F-851C-27D822F8E3E9}")
    );
    assert_eq!(registered_handler_text(&[0, 65, 66]), None);
    assert_eq!(registered_handler_text(&[]), None);
    assert_eq!(registered_handler_text(&[32, 32]).as_deref(), Some(""));
    assert_eq!(
        registered_handler_text(&[0xd800, 65]).as_deref(),
        Some("\u{fffd}A")
    );
}
