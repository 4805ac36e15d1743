//! The in-memory shape of a decoded batch: headers, line items,
//! trailers, whole invoices, and the per-file ticket that keeps one
//! slot per chunk, successful or failed.

use vstd::prelude::*;
use crate::decimal::Decimal;
use crate::errors::{ParserError, ParserErrorType};
use crate::fields::{Currencies, Date};

verus! {

/// Invoice metadata from the header line.
#[derive(Debug, Clone, Copy, PartialEq, Eq, Structural)]
pub struct Header {
    pub numero_de_factura: i32,
    pub id_cliente: i32,
    pub fecha: Date,
    pub denominacion: Currencies,
}

impl Header {
    pub open spec fn wf(self) -> bool {
        self.fecha.wf()
    }
}

/// One line item of an invoice.
#[derive(Debug)]
pub struct Item {
    pub id: String,
    pub antiguedad: u32,
    pub cantidad: u32,
    pub valor_neto: Decimal,
}

/// The mathematical shape of a line item.
pub struct ItemV {
    pub id: Seq<char>,
    pub antiguedad: u32,
    pub cantidad: u32,
    pub valor_neto: Decimal,
}

impl ItemV {
    pub open spec fn wf(self) -> bool {
        self.valor_neto.wf()
    }
}

impl View for Item {
    type V = ItemV;

    open spec fn view(&self) -> ItemV {
        ItemV {
            id: self.id@,
            antiguedad: self.antiguedad,
            cantidad: self.cantidad,
            valor_neto: self.valor_neto,
        }
    }
}

/// The invoice footer: the declared item count and total value.
#[derive(Debug, Clone, Copy, PartialEq, Eq, Structural)]
pub struct Trailer {
    pub numero_de_items: u32,
    pub valor_total: Decimal,
}

impl Trailer {
    pub open spec fn wf(self) -> bool {
        self.valor_total.wf()
    }
}

/// One decoded invoice: header, items in input order, trailer.
#[derive(Debug)]
pub struct Factura {
    pub header: Header,
    pub items: Vec<Item>,
    pub trailer: Trailer,
}

/// The mathematical shape of an invoice.
pub struct FacturaV {
    pub header: Header,
    pub items: Seq<ItemV>,
    pub trailer: Trailer,
}

impl FacturaV {
    pub open spec fn wf(self) -> bool {
        self.header.wf() && self.trailer.wf() && forall|i: int|
            0 <= i < self.items.len() ==> (#[trigger] self.items[i]).wf()
    }
}

impl View for Factura {
    type V = FacturaV;

    open spec fn view(&self) -> FacturaV {
        FacturaV {
            header: self.header,
            items: self.items@.map_values(|it: Item| it@),
            trailer: self.trailer,
        }
    }
}

/// The mathematical shape of a classified failure.
pub struct ParserErrorV {
    pub kind: ParserErrorType,
    pub message: Seq<char>,
}

impl View for ParserError {
    type V = ParserErrorV;

    open spec fn view(&self) -> ParserErrorV {
        ParserErrorV { kind: self.kind, message: self.message@ }
    }
}

/// The shape a per-chunk outcome takes in specifications.
pub open spec fn factura_res_view(r: Result<Factura, ParserError>) -> Result<
    FacturaV,
    ParserErrorV,
> {
    match r {
        Ok(f) => Ok(f@),
        Err(e) => Err(e@),
    }
}

/// A whole input file: one slot per chunk, in input order, each either
/// a decoded invoice or its classified failure.
#[derive(Debug)]
pub struct Ticket {
    pub facturas: Vec<Result<Factura, ParserError>>,
}

impl View for Ticket {
    type V = Seq<Result<FacturaV, ParserErrorV>>;

    open spec fn view(&self) -> Seq<Result<FacturaV, ParserErrorV>> {
        self.facturas@.map_values(|r: Result<Factura, ParserError>| factura_res_view(r))
    }
}

} // verus!
