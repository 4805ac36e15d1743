//! The validator: a parsed invoice is consistent when the exact sum of
//! its items' net values equals the trailer's declared total and the
//! item count equals the declared count.  Parse failures already in a
//! ticket pass through untouched; every violation across the whole
//! ticket is collected before anything is reported.

use vstd::prelude::*;
use vstd::string::StringExecFns;
use crate::decimal::{MAX_MICROS, decimal_rep, fmt_decimal_micros};
use crate::digits::{dec_rep, fmt_u128, fmt_usize};
use crate::errors::{ParserError, ParserErrorType, expected_found};
use crate::types::{Factura, FacturaV, ItemV, ParserErrorV, Ticket, factura_res_view};

verus! {

/// The exact sum of the items' net values, in millionths.
pub open spec fn items_sum_micros(items: Seq<ItemV>) -> int
    decreases items.len(),
{
    if items.len() == 0 {
        0
    } else {
        items_sum_micros(items.drop_last()) + items.last().valor_neto.micros as int
    }
}

/// Whether an invoice is internally consistent: exact sum equality and
/// count equality against its trailer.
pub open spec fn factura_valid(f: FacturaV) -> bool {
    items_sum_micros(f.items) == f.trailer.valor_total.micros as int && f.items.len()
        == f.trailer.numero_de_items as nat
}

/// What the one reported violation of an inconsistent invoice looks
/// like: the sum check is reported first, the count check only when the
/// sum agrees.
pub open spec fn verdict_error_matches(e: ParserErrorV, f: FacturaV) -> bool {
    if items_sum_micros(f.items) != f.trailer.valor_total.micros as int {
        e.kind == ParserErrorType::ItemSumNotEqual && e.message == expected_found(
            decimal_rep(f.trailer.valor_total.micros as int),
            decimal_rep(items_sum_micros(f.items)),
        )
    } else {
        e.kind == ParserErrorType::NotSameItems && e.message == expected_found(
            dec_rep(f.trailer.numero_de_items as nat),
            dec_rep(f.items.len()),
        )
    }
}

/// The parsed-and-inconsistent invoices of a ticket, in ticket order.
pub open spec fn invalid_facturas(s: Seq<Result<FacturaV, ParserErrorV>>) -> Seq<FacturaV>
    decreases s.len(),
{
    if s.len() == 0 {
        Seq::<FacturaV>::empty()
    } else {
        let rest = invalid_facturas(s.drop_first());
        match s[0] {
            Ok(f) => if !factura_valid(f) {
                seq![f] + rest
            } else {
                rest
            },
            Err(_) => rest,
        }
    }
}

/// Every successfully parsed invoice of the ticket is well formed.
pub open spec fn ticket_ok_wf(s: Seq<Result<FacturaV, ParserErrorV>>) -> bool {
    forall|k: int|
        0 <= k < s.len() ==> (#[trigger] s[k] matches Ok(f) ==> f.wf())
}

/// Checks one invoice: the exact item sum against the declared total,
/// then the item count against the declared count.
#[verifier::loop_isolation(false)]
#[verifier::rlimit(60)]
pub fn validate_factura(factura: &Factura) -> (r: Result<(), ParserError>)
    requires
        factura@.wf(),
    ensures
        r is Ok <==> factura_valid(factura@),
        r matches Err(e) ==> verdict_error_matches(e@, factura@),
{
    let n = factura.items.len();
    let mut suma: i128 = 0;
    let mut idx: usize = 0;
    while idx < n
        invariant
            idx <= n,
            suma as int == items_sum_micros(factura@.items.subrange(0, idx as int)),
            -(idx as int) * (MAX_MICROS as int) <= suma as int <= (idx as int) * (
            MAX_MICROS as int),
        decreases n - idx,
    {
        proof {
            let pre = factura@.items.subrange(0, idx as int);
            let ext = factura@.items.subrange(0, idx + 1 as int);
            assert(ext.drop_last() =~= pre);
            assert(ext.last() == factura@.items[idx as int]);
            assert(factura@.items[idx as int] == factura.items@[idx as int]@);
            assert(factura@.items[idx as int].wf());
        }
        suma = suma + (factura.items[idx].valor_neto.micros as i128);
        idx = idx + 1;
    }
    proof {
        assert(factura@.items.subrange(0, n as int) =~= factura@.items);
    }
    let total: i128 = factura.trailer.valor_total.micros as i128;
    if suma != total {
        let declared = fmt_decimal_micros(total);
        let computed = fmt_decimal_micros(suma);
        return Err(
            ParserError::new(
                ParserErrorType::ItemSumNotEqual,
                declared.as_str(),
                computed.as_str(),
            ),
        );
    }
    let count = factura.trailer.numero_de_items;
    if n != (count as usize) {
        let declared = fmt_u128(count as u128);
        let found = fmt_usize(n);
        return Err(
            ParserError::new(ParserErrorType::NotSameItems, declared.as_str(), found.as_str()),
        );
    }
    Ok(())
}

/// Checks every successfully parsed invoice of a ticket and collects
/// every violation; parse failures pass through untouched.  The ticket
/// comes back unchanged when nothing is wrong, the full violation list
/// otherwise.
#[verifier::loop_isolation(false)]
#[verifier::rlimit(100)]
pub fn validate_ticket(ticket: Ticket) -> (r: Result<Ticket, Vec<ParserError>>)
    requires
        ticket_ok_wf(ticket@),
    ensures
        r is Ok <==> invalid_facturas(ticket@).len() == 0,
        r matches Ok(t) ==> t == ticket,
        r matches Err(es) ==> es@.len() == invalid_facturas(ticket@).len() && forall|k: int|
            0 <= k < es@.len() ==> verdict_error_matches(
                (#[trigger] es@[k])@,
                invalid_facturas(ticket@)[k],
            ),
{
    let ghost tv = ticket@;
    let mut errors: Vec<ParserError> = Vec::new();
    let mut idx: usize = 0;
    let n = ticket.facturas.len();
    let ghost mut done_invalid: Seq<FacturaV> = Seq::<FacturaV>::empty();
    proof {
        assert(tv.skip(0) =~= tv);
        assert(Seq::<FacturaV>::empty() + invalid_facturas(tv) =~= invalid_facturas(tv));
    }
    while idx < n
        invariant
            idx <= n == ticket.facturas@.len(),
            tv == ticket@,
            invalid_facturas(tv) == done_invalid + invalid_facturas(tv.skip(idx as int)),
            errors@.len() == done_invalid.len(),
            forall|k: int|
                0 <= k < errors@.len() ==> verdict_error_matches(
                    (#[trigger] errors@[k])@,
                    done_invalid[k],
                ),
        decreases n - idx,
    {
        proof {
            assert(tv.skip(idx as int)[0] == tv[idx as int]);
            assert(tv.skip(idx as int).drop_first() =~= tv.skip(idx + 1));
            assert(tv[idx as int] == factura_res_view(ticket.facturas@[idx as int]));
        }
        match &ticket.facturas[idx] {
            Ok(f) => {
                proof {
                    assert(tv[idx as int] matches Ok(fv) && fv == f@);
                }
                match validate_factura(f) {
                    Ok(_) => {},
                    Err(e) => {
                        proof {
                            let rest = invalid_facturas(tv.skip(idx + 1));
                            assert(done_invalid + (seq![f@] + rest) =~= done_invalid.push(f@)
                                + rest);
                            done_invalid = done_invalid.push(f@);
                        }
                        errors.push(e);
                    },
                }
            },
            Err(_) => {},
        }
        idx = idx + 1;
    }
    proof {
        assert(tv.skip(n as int) =~= Seq::<Result<FacturaV, ParserErrorV>>::empty());
        assert(done_invalid + Seq::<FacturaV>::empty() =~= done_invalid);
    }
    if errors.is_empty() {
        Ok(ticket)
    } else {
        Err(errors)
    }
}

/// Law: the validator's verdict depends only on the sum and the count
/// of the items, so permuting an invoice's item list never changes it.
pub proof fn lemma_validation_permutation(a: FacturaV, b: FacturaV)
    requires
        a.header == b.header,
        a.trailer == b.trailer,
        a.items.to_multiset() == b.items.to_multiset(),
    ensures
        factura_valid(a) == factura_valid(b),
        forall|e: ParserErrorV| verdict_error_matches(e, a) == verdict_error_matches(e, b),
{
    lemma_sum_permutation(a.items, b.items);
    a.items.to_multiset_ensures();
    b.items.to_multiset_ensures();
}

/// The exact sum is invariant under any reordering of the items.
pub proof fn lemma_sum_permutation(a: Seq<ItemV>, b: Seq<ItemV>)
    requires
        a.to_multiset() == b.to_multiset(),
    ensures
        items_sum_micros(a) == items_sum_micros(b),
    decreases a.len(),
{
    a.to_multiset_ensures();
    b.to_multiset_ensures();
    if a.len() == 0 {
        assert(b.len() == 0);
    } else {
        let x = a.last();
        let a1 = a.drop_last();
        a1.to_multiset_ensures();
        assert(a =~= a1.push(x));
        assert(a.to_multiset() == a1.push(x).to_multiset());
        assert(a.to_multiset() == a1.to_multiset().insert(x));
        assert(b.to_multiset().count(x) > 0);
        assert(b.contains(x));
        let j = choose|j: int| 0 <= j < b.len() && b[j] == x;
        let b1 = b.remove(j);
        assert(b1.to_multiset() =~= b.to_multiset().remove(x));
        assert(a1.to_multiset() =~= b1.to_multiset());
        lemma_sum_remove(b, j);
        lemma_sum_permutation(a1, b1);
    }
}

/// Removing one item subtracts exactly its net value from the sum.
pub proof fn lemma_sum_remove(s: Seq<ItemV>, j: int)
    requires
        0 <= j < s.len(),
    ensures
        items_sum_micros(s) == items_sum_micros(s.remove(j)) + s[j].valor_neto.micros as int,
    decreases s.len(),
{
    if j == s.len() - 1 {
        assert(s.remove(j) =~= s.drop_last());
    } else {
        assert(s.remove(j).drop_last() =~= s.drop_last().remove(j));
        assert(s.remove(j).last() == s.last());
        lemma_sum_remove(s.drop_last(), j);
    }
}

} // verus!
