use facturas::types::{Factura, Ticket};
use facturas::errors::ParserErrorType;
use facturas::validator::{validate_factura, validate_ticket};

// A header that fills the fixed columns exactly: marker at 0, invoice
// number in columns 4-8, client id in 10-12, date in 15-22, currency
// from 23 on.
const HEADER: &str = "H   00001 010  20230101USD";

fn invoice_text(trailer: &str) -> String {
    format!("{}\nI1 5 2 10.0\n{}", HEADER, trailer)
}

#[test]
fn header_and_trailer_alone_give_empty_item_list() {
    let f = Factura::from_str(&format!("{}\nT 0 0.0", HEADER)).unwrap();
    assert_eq!(f.items.len(), 0);
    assert_eq!(f.header.numero_de_factura, 1);
    assert_eq!(f.header.id_cliente, 10);
    assert_eq!(f.trailer.numero_de_items, 0);
}

#[test]
fn chunk_of_one_line_fails_with_line_count() {
    let e = Factura::from_str("just one line").unwrap_err();
    assert!(matches!(e.kind, ParserErrorType::FacturaError));
    assert_eq!(e.message, "Expected 3 arguments found 1 in Factura");
}

#[test]
fn empty_chunk_counts_as_one_line() {
    let e = Factura::from_str("").unwrap_err();
    assert!(matches!(e.kind, ParserErrorType::FacturaError));
    assert_eq!(e.message, "Expected 3 arguments found 1 in Factura");
}

#[test]
fn valid_single_invoice_validates() {
    let text = invoice_text("T 1 10.0");
    let ticket = Ticket::from_str(&text).unwrap();
    assert_eq!(ticket.facturas.len(), 1);
    let ticket = validate_ticket(ticket).unwrap();
    assert!(ticket.facturas[0].is_ok());
}

#[test]
fn sum_mismatch_reports_declared_and_computed() {
    let text = invoice_text("T 1 15.0");
    let ticket = Ticket::from_str(&text).unwrap();
    let f = ticket.facturas[0].as_ref().unwrap();
    let e = validate_factura(f).unwrap_err();
    assert!(matches!(e.kind, ParserErrorType::ItemSumNotEqual));
    assert_eq!(e.message, "Expected 15 found 10");
}

#[test]
fn count_mismatch_reports_declared_and_found() {
    let text = invoice_text("T 2 10.0");
    let ticket = Ticket::from_str(&text).unwrap();
    let f = ticket.facturas[0].as_ref().unwrap();
    let e = validate_factura(f).unwrap_err();
    assert!(matches!(e.kind, ParserErrorType::NotSameItems));
    assert_eq!(e.message, "Expected 2 found 1");
}

#[test]
fn two_token_trailer_reports_count_found() {
    let text = invoice_text("T 15.0");
    let ticket = Ticket::from_str(&text).unwrap();
    let e = ticket.facturas[0].as_ref().unwrap_err();
    assert!(matches!(e.kind, ParserErrorType::TrailerError));
    assert_eq!(e.message, "Expected 3 arguments found 2 in Trailer");
}

#[test]
fn bad_currency_fails_only_its_own_invoice() {
    let good = invoice_text("T 1 10.0");
    let bad = "H   00001 010  20230101XYZ\nI1 5 2 10.0\nT 1 10.0".to_string();
    let text = format!("{}\n{}\n{}", good, good, bad);
    let ticket = Ticket::from_str(&text).unwrap();
    assert_eq!(ticket.facturas.len(), 3);
    assert!(ticket.facturas[0].is_ok());
    assert!(ticket.facturas[1].is_ok());
    let e = ticket.facturas[2].as_ref().unwrap_err();
    assert!(matches!(e.kind, ParserErrorType::CurrencyError));
    assert_eq!(e.message, "Expected Currency found XYZ");
}

#[test]
fn concatenated_invoices_keep_their_order_and_outcomes() {
    let a = invoice_text("T 1 10.0");
    let b = invoice_text("T 1 15.0");
    let c = invoice_text("T 1 10.0");
    let text = format!("{}\n{}\n{}", a, b, c);
    let ticket = Ticket::from_str(&text).unwrap();
    assert_eq!(ticket.facturas.len(), 3);
    for slot in &ticket.facturas {
        assert!(slot.is_ok());
    }
    // the middle invoice is inconsistent, so the whole ticket trades
    // itself for exactly one violation
    let errors = validate_ticket(ticket).unwrap_err();
    assert_eq!(errors.len(), 1);
    assert!(matches!(errors[0].kind, ParserErrorType::ItemSumNotEqual));
}

#[test]
fn permuting_items_keeps_the_verdict() {
    let one = format!("{}\nI1 5 2 1.5\nIb 1 1 2.25\nIc 2 2 6.25\nT 3 10.0", HEADER);
    let two = format!("{}\nIc 2 2 6.25\nI1 5 2 1.5\nIb 1 1 2.25\nT 3 10.0", HEADER);
    let fa = Factura::from_str(&one).unwrap();
    let fb = Factura::from_str(&two).unwrap();
    assert!(validate_factura(&fa).is_ok());
    assert!(validate_factura(&fb).is_ok());
}

#[test]
fn item_line_strips_marker_from_id() {
    let text = invoice_text("T 1 10.0");
    let ticket = Ticket::from_str(&text).unwrap();
    let f = ticket.facturas[0].as_ref().unwrap();
    assert_eq!(f.items.len(), 1);
    assert_eq!(f.items[0].id, "1");
    assert_eq!(f.items[0].antiguedad, 5);
    assert_eq!(f.items[0].cantidad, 2);
    assert_eq!(f.items[0].valor_neto.micros, 10_000_000);
}

#[test]
fn item_with_wrong_token_count_is_reported() {
    let text = format!("{}\nI1 5 2\nT 1 10.0", HEADER);
    let ticket = Ticket::from_str(&text).unwrap();
    let e = ticket.facturas[0].as_ref().unwrap_err();
    assert!(matches!(e.kind, ParserErrorType::ItemError));
    assert_eq!(e.message, "Expected 4 arguments found 3 in Item");
}

#[test]
fn wrong_marker_bytes_are_reported_per_record() {
    let e = facturas::types::Header::from_str("X   00001 010  20230101USD").unwrap_err();
    assert!(matches!(e.kind, ParserErrorType::HeaderError));
    assert_eq!(e.message, "Expected H found 88 in Header");
    let e = facturas::types::Item::from_str("X1 5 2 10.0").unwrap_err();
    assert!(matches!(e.kind, ParserErrorType::ItemError));
    assert_eq!(e.message, "Expected I found X in Item");
    let e = facturas::types::Trailer::from_str("X 1 10.0").unwrap_err();
    assert!(matches!(e.kind, ParserErrorType::TrailerError));
    assert_eq!(e.message, "Expected T found 88 in Trailer");
}

#[test]
fn short_header_line_is_reported() {
    let e = facturas::types::Header::from_str("H 1 2").unwrap_err();
    assert!(matches!(e.kind, ParserErrorType::HeaderError));
    assert_eq!(e.message, "Expected 23 columns found 5 in Header");
}

#[test]
fn bad_date_is_reported_with_the_field_text() {
    let e = facturas::types::Header::from_str("H   00001 010  2023A101USD").unwrap_err();
    assert!(matches!(e.kind, ParserErrorType::InvalidDate));
    assert_eq!(e.message, "Expected %Y%m%d found 2023A101");
}

#[test]
fn trailing_content_after_last_trailer_is_surfaced() {
    let text = format!("{}\nH   00002 011  20230101USD\nI1 1 1 1.0", invoice_text("T 1 10.0"));
    let ticket = Ticket::from_str(&text).unwrap();
    assert_eq!(ticket.facturas.len(), 2);
    assert!(ticket.facturas[0].is_ok());
    let e = ticket.facturas[1].as_ref().unwrap_err();
    assert!(matches!(e.kind, ParserErrorType::FacturaError));
    assert_eq!(e.message, "Expected a trailer line found 2 trailing lines");
}

#[test]
fn trailing_blank_line_is_not_surfaced() {
    let text = format!("{}\n", invoice_text("T 1 10.0"));
    let ticket = Ticket::from_str(&text).unwrap();
    assert_eq!(ticket.facturas.len(), 1);
}

#[test]
fn empty_input_gives_empty_ticket() {
    let ticket = Ticket::from_str("").unwrap();
    assert_eq!(ticket.facturas.len(), 0);
}

#[test]
fn decoded_header_fields_reencode_to_the_same_values() {
    let h = facturas::types::Header::from_str(HEADER).unwrap();
    let num = facturas::fields::fmt_i32(h.numero_de_factura);
    let cli = facturas::fields::fmt_i32(h.id_cliente);
    let date = facturas::fields::encode_date(&h.fecha);
    let cur = facturas::fields::encode_currency(&h.denominacion);
    assert_eq!(facturas::fields::parse_i32(&num).unwrap(), h.numero_de_factura);
    assert_eq!(facturas::fields::parse_i32(&cli).unwrap(), h.id_cliente);
    assert_eq!(facturas::fields::parse_date(&date).unwrap(), h.fecha);
    assert_eq!(facturas::fields::parse_currency(cur).unwrap(), h.denominacion);
    assert_eq!(date, "20230101");
    assert_eq!(cur, "USD");
}

#[test]
fn lone_trailer_line_is_a_one_line_chunk() {
    let ticket = Ticket::from_str("T 0 0.0").unwrap();
    assert_eq!(ticket.facturas.len(), 1);
    let e = ticket.facturas[0].as_ref().unwrap_err();
    assert!(matches!(e.kind, ParserErrorType::FacturaError));
    assert_eq!(e.message, "Expected 3 arguments found 1 in Factura");
}

#[test]
fn any_line_opening_with_t_closes_the_chunk() {
    // the second line starts with `T`, so the chunk ends there and the
    // remaining lines begin the next one
    let text = format!("{}\nT 0 0.0\nI1 5 2 10.0\nT 1 10.0", HEADER);
    let ticket = Ticket::from_str(&text).unwrap();
    assert_eq!(ticket.facturas.len(), 2);
    let first = ticket.facturas[0].as_ref().unwrap();
    assert_eq!(first.items.len(), 0);
    let e = ticket.facturas[1].as_ref().unwrap_err();
    assert!(matches!(e.kind, ParserErrorType::HeaderError));
}

#[test]
fn empty_interior_line_is_reported_not_skipped() {
    let text = format!("{}\n\nT 0 0.0", HEADER);
    let ticket = Ticket::from_str(&text).unwrap();
    assert_eq!(ticket.facturas.len(), 1);
    let e = ticket.facturas[0].as_ref().unwrap_err();
    assert!(matches!(e.kind, ParserErrorType::ItemError));
    assert_eq!(e.message, "Expected I found nothing in Item");
}

#[test]
fn validation_sums_exactly_with_no_tolerance() {
    let text = format!("{}\nIa 1 1 0.1\nIb 1 1 0.2\nT 2 0.3", HEADER);
    let f = Factura::from_str(&text).unwrap();
    assert!(validate_factura(&f).is_ok());
    let off = format!("{}\nIa 1 1 0.1\nIb 1 1 0.2\nT 2 0.300001", HEADER);
    let f = Factura::from_str(&off).unwrap();
    assert!(validate_factura(&f).is_err());
}
