//! The record parsers and the ticket splitter.
//!
//! A line is split from the raw text on newlines; a chunk is the run of
//! lines up to and including a trailer line; each chunk is decoded
//! independently, so one malformed invoice never blocks the rest.

use vstd::prelude::*;
use vstd::string::StringExecFns;
use vstd::string::StrSliceExecFns;
use crate::decimal::{Decimal, decimal_token_micros, parse_decimal};
use crate::digits::{dec_rep, fmt_u128, fmt_usize};
use crate::errors::{ParserError, ParserErrorType, expected_found};
use crate::fields::{
    Currencies, Date, currency_token, date_token, i32_token_val, u32_token_val, parse_currency,
    parse_date, parse_i32, parse_u32, i32_rep, date_digits, currency_code, lemma_i32_round_trip,
    lemma_date_round_trip, lemma_currency_round_trip,
};
use crate::digits::{all_digits, lemma_digits_val_bound, pow10};
use crate::types::{
    Factura, FacturaV, Header, Item, ItemV, ParserErrorV, Ticket, Trailer, factura_res_view,
};
use crate::validator::ticket_ok_wf;

verus! {

/// The parts of `s` split on every occurrence of `sep`; always at least
/// one part, and empty parts are kept.
pub open spec fn split_on(s: Seq<char>, sep: char) -> Seq<Seq<char>>
    decreases s.len(),
{
    if s.len() == 0 {
        seq![Seq::<char>::empty()]
    } else if s[0] == sep {
        seq![Seq::<char>::empty()] + split_on(s.drop_first(), sep)
    } else {
        let r = split_on(s.drop_first(), sep);
        seq![seq![s[0]] + r[0]] + r.drop_first()
    }
}

/// Splitting never yields zero parts.
pub proof fn lemma_split_on_len(s: Seq<char>, sep: char)
    ensures
        split_on(s, sep).len() >= 1,
    decreases s.len(),
{
    if s.len() > 0 {
        lemma_split_on_len(s.drop_first(), sep);
    }
}

/// A separator-free stretch from `start` to `i` is the head part of
/// what remains at `start`.
pub proof fn lemma_split_head(s: Seq<char>, sep: char, start: int, i: int)
    requires
        0 <= start <= i <= s.len(),
        forall|t: int| start <= t < i ==> s[t] != sep,
        i == s.len() || s[i] == sep,
    ensures
        split_on(s.skip(start), sep) == if i < s.len() {
            seq![s.subrange(start, i)] + split_on(s.skip(i + 1), sep)
        } else {
            seq![s.subrange(start, i)]
        },
    decreases i - start,
{
    lemma_split_on_len(s.skip(start), sep);
    if start == i {
        if i == s.len() {
            assert(s.skip(start) =~= Seq::<char>::empty());
            assert(s.subrange(start, i) =~= Seq::<char>::empty());
            assert(split_on(s.skip(start), sep) =~= seq![s.subrange(start, i)]);
        } else {
            assert(s.skip(start).len() > 0);
            assert(s.skip(start)[0] == s[i]);
            assert(s.skip(start).drop_first() =~= s.skip(i + 1));
            assert(s.subrange(start, i) =~= Seq::<char>::empty());
            assert(split_on(s.skip(start), sep) =~= seq![s.subrange(start, i)] + split_on(
                s.skip(i + 1),
                sep,
            ));
        }
    } else {
        lemma_split_head(s, sep, start + 1, i);
        lemma_split_on_len(s.skip(start + 1), sep);
        let r = split_on(s.skip(start + 1), sep);
        assert(s.skip(start).len() > 0);
        assert(s.skip(start)[0] == s[start]);
        assert(s.skip(start).drop_first() =~= s.skip(start + 1));
        assert(seq![s[start]] + r[0] =~= s.subrange(start, i));
        if i < s.len() {
            assert(r.drop_first() =~= split_on(s.skip(i + 1), sep));
            assert(split_on(s.skip(start), sep) =~= seq![s.subrange(start, i)] + split_on(
                s.skip(i + 1),
                sep,
            ));
        } else {
            assert(r.drop_first() =~= Seq::<Seq<char>>::empty());
            assert(split_on(s.skip(start), sep) =~= seq![s.subrange(start, i)]);
        }
    }
}

/// Splits a string on a separator character, keeping empty parts, as
/// the splitting model `split_on` describes.
#[verifier::loop_isolation(false)]
#[verifier::rlimit(60)]
pub fn split_str<'a>(s: &'a str, sep: char) -> (parts: Vec<&'a str>)
    ensures
        parts@.map_values(|p: &str| p@) == split_on(s@, sep),
        parts@.len() >= 1,
{
    let n = s.unicode_len();
    let mut parts: Vec<&'a str> = Vec::new();
    let mut start: usize = 0;
    let mut i: usize = 0;
    proof {
        assert(s@.skip(0) =~= s@);
        lemma_split_on_len(s@, sep);
    }
    while i < n
        invariant
            start <= i <= n,
            forall|t: int| start <= t < i ==> s@[t] != sep,
            split_on(s@, sep) == parts@.map_values(|p: &str| p@) + split_on(
                s@.skip(start as int),
                sep,
            ),
        decreases n - i,
    {
        let c = s.get_char(i);
        if c == sep {
            let part = s.substring_char(start, i);
            proof {
                lemma_split_head(s@, sep, start as int, i as int);
                lemma_split_on_len(s@.skip(i + 1), sep);
                assert(parts@.push(part).map_values(|p: &str| p@) =~= parts@.map_values(
                    |p: &str| p@,
                ).push(part@));
                assert(parts@.map_values(|p: &str| p@).push(part@) + split_on(
                    s@.skip(i + 1),
                    sep,
                ) =~= parts@.map_values(|p: &str| p@) + (seq![part@] + split_on(
                    s@.skip(i + 1),
                    sep,
                )));
            }
            parts.push(part);
            start = i + 1;
        }
        i = i + 1;
    }
    let part = s.substring_char(start, n);
    proof {
        lemma_split_head(s@, sep, start as int, n as int);
        assert(parts@.push(part).map_values(|p: &str| p@) =~= parts@.map_values(
            |p: &str| p@,
        ).push(part@));
        assert(parts@.map_values(|p: &str| p@).push(part@) =~= parts@.map_values(|p: &str| p@)
            + seq![part@]);
    }
    parts.push(part);
    proof {
        assert(parts@.map_values(|p: &str| p@) =~= split_on(s@, sep));
    }
    parts
}

/// What decoding a header line yields: the marker must be `H`, the
/// line must reach the currency column, and each field must decode.
pub open spec fn decode_header(l: Seq<char>) -> Result<Header, ParserErrorV> {
    if l.len() == 0 {
        Err(
            ParserErrorV {
                kind: ParserErrorType::HeaderError,
                message: expected_found("H"@, "nothing in Header"@),
            },
        )
    } else if l[0] != 'H' {
        Err(
            ParserErrorV {
                kind: ParserErrorType::HeaderError,
                message: expected_found("H"@, dec_rep(l[0] as u32 as nat) + " in Header"@),
            },
        )
    } else if l.len() < 23 {
        Err(
            ParserErrorV {
                kind: ParserErrorType::HeaderError,
                message: expected_found("23 columns"@, dec_rep(l.len()) + " in Header"@),
            },
        )
    } else {
        match date_token(l.subrange(15, 23)) {
            None => Err(
                ParserErrorV {
                    kind: ParserErrorType::InvalidDate,
                    message: expected_found("%Y%m%d"@, l.subrange(15, 23)),
                },
            ),
            Some(fecha) => match i32_token_val(l.subrange(4, 9)) {
                None => Err(
                    ParserErrorV {
                        kind: ParserErrorType::ParseInteger,
                        message: expected_found("i32"@, l.subrange(4, 9)),
                    },
                ),
                Some(numero) => match i32_token_val(l.subrange(10, 13)) {
                    None => Err(
                        ParserErrorV {
                            kind: ParserErrorType::ParseInteger,
                            message: expected_found("i32"@, l.subrange(10, 13)),
                        },
                    ),
                    Some(cliente) => match currency_token(l.subrange(23, l.len() as int)) {
                        None => Err(
                            ParserErrorV {
                                kind: ParserErrorType::CurrencyError,
                                message: expected_found(
                                    "Currency"@,
                                    l.subrange(23, l.len() as int),
                                ),
                            },
                        ),
                        Some(denominacion) => Ok(
                            Header {
                                numero_de_factura: numero,
                                id_cliente: cliente,
                                fecha,
                                denominacion,
                            },
                        ),
                    },
                },
            },
        }
    }
}

/// What decoding an item line yields: the marker must be `I`, the line
/// must split into exactly four tokens, and each field must decode.
pub open spec fn decode_item(l: Seq<char>) -> Result<ItemV, ParserErrorV> {
    if l.len() == 0 {
        Err(
            ParserErrorV {
                kind: ParserErrorType::ItemError,
                message: expected_found("I"@, "nothing in Item"@),
            },
        )
    } else if l[0] != 'I' {
        Err(
            ParserErrorV {
                kind: ParserErrorType::ItemError,
                message: expected_found("I"@, seq![l[0]] + " in Item"@),
            },
        )
    } else {
        let parts = split_on(l, ' ');
        if parts.len() != 4 {
            Err(
                ParserErrorV {
                    kind: ParserErrorType::ItemError,
                    message: expected_found("4 arguments"@, dec_rep(parts.len()) + " in Item"@),
                },
            )
        } else {
            match u32_token_val(parts[1]) {
                None => Err(
                    ParserErrorV {
                        kind: ParserErrorType::ParseInteger,
                        message: expected_found("u32"@, parts[1]),
                    },
                ),
                Some(antiguedad) => match u32_token_val(parts[2]) {
                    None => Err(
                        ParserErrorV {
                            kind: ParserErrorType::ParseInteger,
                            message: expected_found("u32"@, parts[2]),
                        },
                    ),
                    Some(cantidad) => match decimal_token_micros(parts[3]) {
                        None => Err(
                            ParserErrorV {
                                kind: ParserErrorType::ParseFloat,
                                message: expected_found("decimal"@, parts[3]),
                            },
                        ),
                        Some(m) => Ok(
                            ItemV {
                                id: parts[0].drop_first(),
                                antiguedad,
                                cantidad,
                                valor_neto: Decimal { micros: m as i64 },
                            },
                        ),
                    },
                },
            }
        }
    }
}

/// What decoding a trailer line yields: the marker must be `T`, the
/// line must split into exactly three tokens, and the count and total
/// must decode.
pub open spec fn decode_trailer(l: Seq<char>) -> Result<Trailer, ParserErrorV> {
    if l.len() == 0 {
        Err(
            ParserErrorV {
                kind: ParserErrorType::TrailerError,
                message: expected_found("T"@, "nothing in Trailer"@),
            },
        )
    } else if l[0] != 'T' {
        Err(
            ParserErrorV {
                kind: ParserErrorType::TrailerError,
                message: expected_found("T"@, dec_rep(l[0] as u32 as nat) + " in Trailer"@),
            },
        )
    } else {
        let parts = split_on(l, ' ');
        if parts.len() != 3 {
            Err(
                ParserErrorV {
                    kind: ParserErrorType::TrailerError,
                    message: expected_found(
                        "3 arguments"@,
                        dec_rep(parts.len()) + " in Trailer"@,
                    ),
                },
            )
        } else {
            match u32_token_val(parts[1]) {
                None => Err(
                    ParserErrorV {
                        kind: ParserErrorType::ParseInteger,
                        message: expected_found("u32"@, parts[1]),
                    },
                ),
                Some(numero_de_items) => match decimal_token_micros(parts[2]) {
                    None => Err(
                        ParserErrorV {
                            kind: ParserErrorType::ParseFloat,
                            message: expected_found("decimal"@, parts[2]),
                        },
                    ),
                    Some(m) => Ok(
                        Trailer { numero_de_items, valor_total: Decimal { micros: m as i64 } },
                    ),
                },
            }
        }
    }
}

impl Header {
    /// Parses one header line by its fixed columns.
    #[verifier::rlimit(60)]
    pub fn from_str(s: &str) -> (r: Result<Header, ParserError>)
        ensures
            match decode_header(s@) {
                Ok(h) => r matches Ok(x) && x == h && h.wf(),
                Err(ev) => r matches Err(e) && e@ == ev,
            },
    {
        let n = s.unicode_len();
        if n == 0 {
            return Err(ParserError::new(ParserErrorType::HeaderError, "H", "nothing in Header"));
        }
        let c0 = s.get_char(0);
        if c0 != 'H' {
            let mut found = fmt_u128(c0 as u128);
            found.append(" in Header");
            proof {
                assert(found@ =~= dec_rep(s@[0] as u32 as nat) + " in Header"@);
            }
            return Err(ParserError::new(ParserErrorType::HeaderError, "H", found.as_str()));
        }
        if n < 23 {
            let mut found = fmt_usize(n);
            found.append(" in Header");
            proof {
                assert(found@ =~= dec_rep(s@.len()) + " in Header"@);
            }
            return Err(
                ParserError::new(ParserErrorType::HeaderError, "23 columns", found.as_str()),
            );
        }
        let fecha = match parse_date(s.substring_char(15, 23)) {
            Ok(d) => d,
            Err(e) => {
                return Err(e);
            },
        };
        let numero = match parse_i32(s.substring_char(4, 9)) {
            Ok(v) => v,
            Err(e) => {
                return Err(e);
            },
        };
        let cliente = match parse_i32(s.substring_char(10, 13)) {
            Ok(v) => v,
            Err(e) => {
                return Err(e);
            },
        };
        let denominacion = match parse_currency(s.substring_char(23, n)) {
            Ok(c) => c,
            Err(e) => {
                return Err(e);
            },
        };
        Ok(Header { numero_de_factura: numero, id_cliente: cliente, fecha, denominacion })
    }
}

impl Item {
    /// Parses one item line: the marker, then four space-separated
    /// tokens.
    #[verifier::rlimit(60)]
    pub fn from_str(s: &str) -> (r: Result<Item, ParserError>)
        ensures
            match decode_item(s@) {
                Ok(v) => r matches Ok(x) && x@ == v && v.wf(),
                Err(ev) => r matches Err(e) && e@ == ev,
            },
    {
        let n = s.unicode_len();
        if n == 0 {
            return Err(ParserError::new(ParserErrorType::ItemError, "I", "nothing in Item"));
        }
        let c0 = s.get_char(0);
        if c0 != 'I' {
            let cs = s.substring_char(0, 1);
            let mut found = cs.to_owned();
            found.append(" in Item");
            proof {
                assert(cs@ =~= seq![s@[0]]);
                assert(found@ =~= seq![s@[0]] + " in Item"@);
            }
            return Err(ParserError::new(ParserErrorType::ItemError, "I", found.as_str()));
        }
        let parts = split_str(s, ' ');
        proof {
            assert(parts@.map_values(|p: &str| p@).len() == parts@.len());
        }
        if parts.len() != 4 {
            let mut found = fmt_usize(parts.len());
            found.append(" in Item");
            proof {
                assert(found@ =~= dec_rep(split_on(s@, ' ').len()) + " in Item"@);
            }
            return Err(
                ParserError::new(ParserErrorType::ItemError, "4 arguments", found.as_str()),
            );
        }
        let antiguedad = match parse_u32(parts[1]) {
            Ok(v) => v,
            Err(e) => {
                return Err(e);
            },
        };
        let cantidad = match parse_u32(parts[2]) {
            Ok(v) => v,
            Err(e) => {
                return Err(e);
            },
        };
        let valor_neto = match parse_decimal(parts[3]) {
            Ok(v) => v,
            Err(e) => {
                return Err(e);
            },
        };
        let p0 = parts[0];
        proof {
            lemma_split_on_len(s@.drop_first(), ' ');
            assert(split_on(s@, ' ')[0] == seq![s@[0]] + split_on(s@.drop_first(), ' ')[0]);
            assert(p0@.len() >= 1);
        }
        let idstr = p0.substring_char(1, p0.unicode_len());
        proof {
            assert(idstr@ =~= p0@.drop_first());
        }
        Ok(Item { id: idstr.to_owned(), antiguedad, cantidad, valor_neto })
    }
}

impl Trailer {
    /// Parses one trailer line: the marker, then three space-separated
    /// tokens.
    #[verifier::rlimit(60)]
    pub fn from_str(s: &str) -> (r: Result<Trailer, ParserError>)
        ensures
            match decode_trailer(s@) {
                Ok(t) => r matches Ok(x) && x == t && t.wf(),
                Err(ev) => r matches Err(e) && e@ == ev,
            },
    {
        let n = s.unicode_len();
        if n == 0 {
            return Err(ParserError::new(ParserErrorType::TrailerError, "T", "nothing in Trailer"));
        }
        let c0 = s.get_char(0);
        if c0 != 'T' {
            let mut found = fmt_u128(c0 as u128);
            found.append(" in Trailer");
            proof {
                assert(found@ =~= dec_rep(s@[0] as u32 as nat) + " in Trailer"@);
            }
            return Err(ParserError::new(ParserErrorType::TrailerError, "T", found.as_str()));
        }
        let parts = split_str(s, ' ');
        proof {
            assert(parts@.map_values(|p: &str| p@).len() == parts@.len());
        }
        if parts.len() != 3 {
            let mut found = fmt_usize(parts.len());
            found.append(" in Trailer");
            proof {
                assert(found@ =~= dec_rep(split_on(s@, ' ').len()) + " in Trailer"@);
            }
            return Err(
                ParserError::new(ParserErrorType::TrailerError, "3 arguments", found.as_str()),
            );
        }
        let numero_de_items = match parse_u32(parts[1]) {
            Ok(v) => v,
            Err(e) => {
                return Err(e);
            },
        };
        let valor_total = match parse_decimal(parts[2]) {
            Ok(v) => v,
            Err(e) => {
                return Err(e);
            },
        };
        Ok(Trailer { numero_de_items, valor_total })
    }
}

/// What decoding the interior lines of a chunk yields: every line an
/// item, the first failure aborting the invoice.
pub open spec fn decode_items(lines: Seq<Seq<char>>) -> Result<Seq<ItemV>, ParserErrorV>
    decreases lines.len(),
{
    if lines.len() == 0 {
        Ok(Seq::<ItemV>::empty())
    } else {
        match decode_item(lines[0]) {
            Err(e) => Err(e),
            Ok(i) => match decode_items(lines.drop_first()) {
                Err(e) => Err(e),
                Ok(rest) => Ok(seq![i] + rest),
            },
        }
    }
}

/// What decoding a chunk yields: at least two lines, the first a
/// header, the last a trailer, everything between an item.
pub open spec fn decode_factura(lines: Seq<Seq<char>>) -> Result<FacturaV, ParserErrorV> {
    if lines.len() < 2 {
        Err(
            ParserErrorV {
                kind: ParserErrorType::FacturaError,
                message: expected_found("3 arguments"@, dec_rep(lines.len()) + " in Factura"@),
            },
        )
    } else {
        match decode_header(lines[0]) {
            Err(e) => Err(e),
            Ok(header) => match decode_items(lines.subrange(1, lines.len() - 1)) {
                Err(e) => Err(e),
                Ok(items) => match decode_trailer(lines.last()) {
                    Err(e) => Err(e),
                    Ok(trailer) => Ok(FacturaV { header, items, trailer }),
                },
            },
        }
    }
}

impl Factura {
    /// Parses the lines of one chunk into an invoice.
    #[verifier::loop_isolation(false)]
    #[verifier::rlimit(100)]
    pub fn from_lines(lines: &Vec<&str>) -> (r: Result<Factura, ParserError>)
        ensures
            match decode_factura(lines@.map_values(|l: &str| l@)) {
                Ok(v) => r matches Ok(x) && x@ == v && v.wf(),
                Err(ev) => r matches Err(e) && e@ == ev,
            },
    {
        let len = lines.len();
        let ghost slines = lines@.map_values(|l: &str| l@);
        if len < 2 {
            let mut found = fmt_usize(len);
            found.append(" in Factura");
            proof {
                assert(found@ =~= dec_rep(slines.len()) + " in Factura"@);
            }
            return Err(
                ParserError::new(ParserErrorType::FacturaError, "3 arguments", found.as_str()),
            );
        }
        let header = match Header::from_str(lines[0]) {
            Ok(h) => h,
            Err(e) => {
                return Err(e);
            },
        };
        let ghost interior = slines.subrange(1, len - 1);
        let mut items: Vec<Item> = Vec::new();
        let mut idx: usize = 1;
        proof {
            assert(interior.skip(0) =~= interior);
            assert(items@.map_values(|it: Item| it@) =~= Seq::<ItemV>::empty());
        }
        while idx < len - 1
            invariant
                1 <= idx <= len - 1,
                items@.len() == idx - 1,
                forall|t: int| 0 <= t < items@.len() ==> (#[trigger] items@[t]@).wf(),
                decode_items(interior) == match decode_items(interior.skip(idx - 1)) {
                    Ok(rest) => Ok::<Seq<ItemV>, ParserErrorV>(
                        items@.map_values(|it: Item| it@) + rest,
                    ),
                    Err(e) => Err(e),
                },
            decreases len - 1 - idx,
        {
            proof {
                assert(interior.skip(idx - 1)[0] == slines[idx as int]);
                assert(interior.skip(idx - 1).drop_first() =~= interior.skip(idx as int));
            }
            match Item::from_str(lines[idx]) {
                Err(e) => {
                    return Err(e);
                },
                Ok(it) => {
                    proof {
                        let rest = decode_items(interior.skip(idx as int));
                        if rest is Ok {
                            let rv = rest->Ok_0;
                            assert(items@.push(it).map_values(|x: Item| x@) =~= items@.map_values(
                                |x: Item| x@,
                            ).push(it@));
                            assert(items@.map_values(|x: Item| x@) + (seq![it@] + rv)
                                =~= items@.push(it).map_values(|x: Item| x@) + rv);
                        }
                    }
                    items.push(it);
                },
            }
            idx = idx + 1;
        }
        proof {
            assert(interior.skip(idx - 1) =~= Seq::<Seq<char>>::empty());
            assert(items@.map_values(|it: Item| it@) + Seq::<ItemV>::empty() =~= items@.map_values(
                |it: Item| it@,
            ));
            assert(slines.last() == slines[len - 1]);
        }
        let trailer = match Trailer::from_str(lines[len - 1]) {
            Ok(t) => t,
            Err(e) => {
                return Err(e);
            },
        };
        Ok(Factura { header, items, trailer })
    }

    /// Parses one invoice from its chunk text.
    pub fn from_str(st: &str) -> (r: Result<Factura, ParserError>)
        ensures
            match decode_factura(split_on(st@, '\n')) {
                Ok(v) => r matches Ok(x) && x@ == v && v.wf(),
                Err(ev) => r matches Err(e) && e@ == ev,
            },
    {
        let lines = split_str(st, '\n');
        Factura::from_lines(&lines)
    }
}

/// The splitter's scan: lines are gathered into `pending` until a line
/// whose first character is `T` closes a chunk; what never reaches a
/// trailer is the leftover.
pub open spec fn scan_chunks(pending: Seq<Seq<char>>, lines: Seq<Seq<char>>) -> (Seq<
    Seq<Seq<char>>,
>, Seq<Seq<char>>)
    decreases lines.len(),
{
    if lines.len() == 0 {
        (Seq::<Seq<Seq<char>>>::empty(), pending)
    } else if lines[0].len() > 0 && lines[0][0] == 'T' {
        let r = scan_chunks(Seq::<Seq<char>>::empty(), lines.drop_first());
        (seq![pending.push(lines[0])] + r.0, r.1)
    } else {
        scan_chunks(pending.push(lines[0]), lines.drop_first())
    }
}

/// The chunks of a whole input text.
pub open spec fn ticket_chunks(text: Seq<char>) -> Seq<Seq<Seq<char>>> {
    scan_chunks(Seq::<Seq<char>>::empty(), split_on(text, '\n')).0
}

/// The lines after the last trailer of a whole input text.
pub open spec fn ticket_leftover(text: Seq<char>) -> Seq<Seq<char>> {
    scan_chunks(Seq::<Seq<char>>::empty(), split_on(text, '\n')).1
}

/// Whether any leftover line holds content.
pub open spec fn leftover_has_content(left: Seq<Seq<char>>) -> bool {
    exists|i: int| 0 <= i < left.len() && left[i].len() > 0
}

/// The failure reported for a leftover with content.
pub open spec fn leftover_error(left: Seq<Seq<char>>) -> ParserErrorV {
    ParserErrorV {
        kind: ParserErrorType::FacturaError,
        message: expected_found("a trailer line"@, dec_rep(left.len()) + " trailing lines"@),
    }
}

/// What decoding a whole input text yields: one slot per chunk in input
/// order, and one more for a leftover that still held content.
pub open spec fn decode_ticket(text: Seq<char>) -> Seq<Result<FacturaV, ParserErrorV>> {
    let base = ticket_chunks(text).map_values(|c: Seq<Seq<char>>| decode_factura(c));
    if leftover_has_content(ticket_leftover(text)) {
        base + seq![Err(leftover_error(ticket_leftover(text)))]
    } else {
        base
    }
}

impl Ticket {
    /// Splits a whole input text into chunks and parses each one
    /// independently: one malformed invoice never blocks the rest.
    #[verifier::loop_isolation(false)]
    #[verifier::rlimit(100)]
    pub fn from_str(st: &str) -> (r: Result<Ticket, ParserError>)
        ensures
            r matches Ok(t) && t@ == decode_ticket(st@) && ticket_ok_wf(t@),
    {
        let lines = split_str(st, '\n');
        let ghost slines = lines@.map_values(|l: &str| l@);
        let mut facturas: Vec<Result<Factura, ParserError>> = Vec::new();
        let mut pending: Vec<&str> = Vec::new();
        let ghost mut done: Seq<Seq<Seq<char>>> = Seq::<Seq<Seq<char>>>::empty();
        let mut idx: usize = 0;
        proof {
            assert(slines.skip(0) =~= slines);
            assert(pending@.map_values(|l: &str| l@) =~= Seq::<Seq<char>>::empty());
            assert(done + scan_chunks(Seq::<Seq<char>>::empty(), slines).0 =~= scan_chunks(
                Seq::<Seq<char>>::empty(),
                slines,
            ).0);
        }
        while idx < lines.len()
            invariant
                idx <= lines.len(),
                scan_chunks(Seq::<Seq<char>>::empty(), slines).0 == done + scan_chunks(
                    pending@.map_values(|l: &str| l@),
                    slines.skip(idx as int),
                ).0,
                scan_chunks(Seq::<Seq<char>>::empty(), slines).1 == scan_chunks(
                    pending@.map_values(|l: &str| l@),
                    slines.skip(idx as int),
                ).1,
                facturas@.len() == done.len(),
                forall|k: int|
                    0 <= k < done.len() ==> factura_res_view(#[trigger] facturas@[k])
                        == decode_factura(done[k]),
                forall|k: int|
                    0 <= k < facturas@.len() ==> ((#[trigger] facturas@[k]) matches Ok(f)
                        ==> f@.wf()),
            decreases lines.len() - idx,
        {
            let line = lines[idx];
            let is_t = line.unicode_len() > 0 && line.get_char(0) == 'T';
            let ghost pv = pending@.map_values(|l: &str| l@);
            proof {
                assert(slines.skip(idx as int)[0] == line@);
                assert(slines.skip(idx as int).drop_first() =~= slines.skip(idx + 1));
            }
            pending.push(line);
            proof {
                assert(pending@.map_values(|l: &str| l@) =~= pv.push(line@));
            }
            if is_t {
                let f = Factura::from_lines(&pending);
                proof {
                    let r0 = scan_chunks(Seq::<Seq<char>>::empty(), slines.skip(idx + 1));
                    assert(done + (seq![pv.push(line@)] + r0.0) =~= done.push(pv.push(line@))
                        + r0.0);
                }
                facturas.push(f);
                pending = Vec::new();
                proof {
                    done = done.push(pv.push(line@));
                    assert(pending@.map_values(|l: &str| l@) =~= Seq::<Seq<char>>::empty());
                }
            }
            idx = idx + 1;
        }
        proof {
            assert(slines.skip(idx as int) =~= Seq::<Seq<char>>::empty());
            assert(done + Seq::<Seq<Seq<char>>>::empty() =~= done);
            assert(ticket_chunks(st@) == done);
            assert(ticket_leftover(st@) == pending@.map_values(|l: &str| l@));
        }
        let mut has_content = false;
        let mut k2: usize = 0;
        while k2 < pending.len()
            invariant
                k2 <= pending@.len(),
                has_content == exists|t: int|
                    0 <= t < k2 && (#[trigger] pending@[t])@.len() > 0,
            decreases pending@.len() - k2,
        {
            if pending[k2].unicode_len() > 0 {
                has_content = true;
            }
            k2 = k2 + 1;
        }
        proof {
            let left = ticket_leftover(st@);
            assert forall|t: int| 0 <= t < left.len() implies left[t] == (#[trigger] pending@[t])@
                by {}
            if has_content {
                let t = choose|t: int| 0 <= t < pending@.len() && (#[trigger] pending@[t])@.len()
                    > 0;
                assert(left[t].len() > 0);
            }
            if leftover_has_content(left) {
                let t = choose|t: int| 0 <= t < left.len() && left[t].len() > 0;
                assert(pending@[t]@.len() > 0);
            }
            assert(has_content == leftover_has_content(left));
        }
        if has_content {
            let mut found = fmt_usize(pending.len());
            found.append(" trailing lines");
            proof {
                assert(found@ =~= dec_rep(ticket_leftover(st@).len()) + " trailing lines"@);
            }
            let e = ParserError::new(ParserErrorType::FacturaError, "a trailer line", found.as_str());
            facturas.push(Err(e));
        }
        let t = Ticket { facturas };
        proof {
            assert(t@ =~= decode_ticket(st@));
            assert forall|k: int| 0 <= k < t@.len() implies (#[trigger] t@[k] matches Ok(f)
                ==> f.wf()) by {
                assert(t@[k] == factura_res_view(t.facturas@[k]));
            }
        }
        Ok(t)
    }
}

/// Law: a chunk of a well-formed header line and a well-formed trailer
/// line alone parses to an invoice with an empty item list.
pub proof fn lemma_factura_empty_items(lines: Seq<Seq<char>>)
    requires
        lines.len() == 2,
        decode_header(lines[0]) is Ok,
        decode_trailer(lines[1]) is Ok,
    ensures
        decode_factura(lines) matches Ok(f) && f.items == Seq::<ItemV>::empty() && f.header
            == decode_header(lines[0])->Ok_0 && f.trailer == decode_trailer(lines[1])->Ok_0,
{
    assert(lines.subrange(1, 1) =~= Seq::<Seq<char>>::empty());
    assert(lines.last() == lines[1]);
}

/// Law: a chunk of fewer than two lines is refused with `FacturaError`
/// naming the exact line count.
pub proof fn lemma_factura_short_chunk(lines: Seq<Seq<char>>)
    requires
        lines.len() < 2,
    ensures
        decode_factura(lines) matches Err(e) && e.kind == ParserErrorType::FacturaError
            && e.message == expected_found("3 arguments"@, dec_rep(lines.len()) + " in Factura"@),
{
}

/// Law: decoding a header line and re-encoding its scalar fields gives
/// tokens that decode back to the very same values, whatever byte
/// layout the line used.
pub proof fn lemma_header_round_trip(l: Seq<char>)
    requires
        decode_header(l) is Ok,
    ensures
        ({
            let h = decode_header(l)->Ok_0;
            &&& i32_token_val(i32_rep(h.numero_de_factura as int)) == Some(h.numero_de_factura)
            &&& i32_token_val(i32_rep(h.id_cliente as int)) == Some(h.id_cliente)
            &&& date_token(date_digits(h.fecha)) == Some(h.fecha)
            &&& currency_token(currency_code(h.denominacion)) == Some(h.denominacion)
        }),
{
    let h = decode_header(l)->Ok_0;
    lemma_i32_round_trip(h.numero_de_factura);
    lemma_i32_round_trip(h.id_cliente);
    let ds = l.subrange(15, 23);
    assert(date_token(ds) == Some(h.fecha));
    assert(ds.subrange(0, 4) =~= l.subrange(15, 19));
    assert(all_digits(ds.subrange(0, 4))) by {
        assert(forall|t: int| 0 <= t < 4 ==> ds.subrange(0, 4)[t] == ds[t]);
    }
    lemma_digits_val_bound(ds.subrange(0, 4));
    assert(pow10(0) == 1);
    assert(pow10(1) == 10);
    assert(pow10(2) == 100);
    assert(pow10(3) == 1000);
    assert(pow10(4) == 10000);
    assert(h.fecha.wf());
    lemma_date_round_trip(h.fecha);
    lemma_currency_round_trip(h.denominacion);
}

/// The scan distributes over concatenation of line runs: the second
/// run starts from whatever the first one left pending.
pub proof fn lemma_scan_chunks_append(p: Seq<Seq<char>>, a: Seq<Seq<char>>, b: Seq<Seq<char>>)
    ensures
        scan_chunks(p, a + b).0 == scan_chunks(p, a).0 + scan_chunks(scan_chunks(p, a).1, b).0,
        scan_chunks(p, a + b).1 == scan_chunks(scan_chunks(p, a).1, b).1,
    decreases a.len(),
{
    if a.len() == 0 {
        assert(a + b =~= b);
        assert(scan_chunks(p, a).0 + scan_chunks(p, b).0 =~= scan_chunks(p, b).0);
    } else {
        assert((a + b)[0] == a[0]);
        assert((a + b).drop_first() =~= a.drop_first() + b);
        if a[0].len() > 0 && a[0][0] == 'T' {
            lemma_scan_chunks_append(Seq::<Seq<char>>::empty(), a.drop_first(), b);
            let r1 = scan_chunks(Seq::<Seq<char>>::empty(), a.drop_first());
            let r2 = scan_chunks(r1.1, b);
            assert(seq![p.push(a[0])] + (r1.0 + r2.0) =~= (seq![p.push(a[0])] + r1.0) + r2.0);
        } else {
            lemma_scan_chunks_append(p.push(a[0]), a.drop_first(), b);
        }
    }
}

/// Splitting distributes over concatenation around a separator.
pub proof fn lemma_split_on_concat(a: Seq<char>, b: Seq<char>, sep: char)
    ensures
        split_on(a + seq![sep] + b, sep) == split_on(a, sep) + split_on(b, sep),
    decreases a.len(),
{
    let s = a + seq![sep] + b;
    if a.len() == 0 {
        assert(s =~= seq![sep] + b);
        assert(s[0] == sep);
        assert(s.drop_first() =~= b);
        assert(split_on(a, sep) =~= seq![Seq::<char>::empty()]);
        assert(split_on(s, sep) =~= split_on(a, sep) + split_on(b, sep));
    } else {
        assert(s[0] == a[0]);
        assert(s.drop_first() =~= a.drop_first() + seq![sep] + b);
        lemma_split_on_concat(a.drop_first(), b, sep);
        lemma_split_on_len(a.drop_first(), sep);
        let ra = split_on(a.drop_first(), sep);
        let rb = split_on(b, sep);
        if a[0] == sep {
            assert(split_on(s, sep) == seq![Seq::<char>::empty()] + (ra + rb));
            assert(seq![Seq::<char>::empty()] + (ra + rb) =~= (seq![Seq::<char>::empty()] + ra)
                + rb);
        } else {
            assert((ra + rb)[0] == ra[0]);
            assert((ra + rb).drop_first() =~= ra.drop_first() + rb);
            assert(seq![seq![a[0]] + ra[0]] + (ra.drop_first() + rb) =~= (seq![seq![a[0]] + ra[0]]
                + ra.drop_first()) + rb);
        }
    }
}

/// Law: splitting respects chunk boundaries.  Parsing the
/// newline-joined concatenation of two texts, the first of which ends
/// exactly at a trailer line, yields the two texts' outcomes in order —
/// so a failure on either side never alters the other side's slots.
pub proof fn lemma_ticket_composition(t1: Seq<char>, t2: Seq<char>)
    requires
        ticket_leftover(t1).len() == 0,
    ensures
        decode_ticket(t1 + seq!['\n'] + t2) == decode_ticket(t1) + decode_ticket(t2),
{
    let whole = t1 + seq!['\n'] + t2;
    lemma_split_on_concat(t1, t2, '\n');
    lemma_scan_chunks_append(
        Seq::<Seq<char>>::empty(),
        split_on(t1, '\n'),
        split_on(t2, '\n'),
    );
    let c1 = ticket_chunks(t1);
    let c2 = ticket_chunks(t2);
    assert(scan_chunks(ticket_leftover(t1), split_on(t2, '\n')).0 == c2
        && scan_chunks(ticket_leftover(t1), split_on(t2, '\n')).1 == ticket_leftover(t2)) by {
        assert(ticket_leftover(t1) =~= Seq::<Seq<char>>::empty());
    }
    assert(ticket_chunks(whole) == c1 + c2);
    assert(ticket_leftover(whole) == ticket_leftover(t2));
    let f = |c: Seq<Seq<char>>| decode_factura(c);
    assert((c1 + c2).map_values(f) =~= c1.map_values(f) + c2.map_values(f));
    assert(!leftover_has_content(ticket_leftover(t1)));
    assert(decode_ticket(whole) =~= decode_ticket(t1) + decode_ticket(t2));
}

impl Currencies {
    /// Parses a currency code.
    pub fn from_str(s: &str) -> (r: Result<Currencies, ParserError>)
        ensures
            match currency_token(s@) {
                Some(c) => r matches Ok(x) && x == c,
                None => r matches Err(e) && e@.kind == ParserErrorType::CurrencyError && e@.message
                    == expected_found("Currency"@, s@),
            },
    {
        parse_currency(s)
    }
}

} // verus!
