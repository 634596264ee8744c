//! The order-calculation harness: line items with a quantity, a unit price
//! and a discount percentage, folded into exact totals with the rounded
//! arithmetic of the core.

use vstd::prelude::*;

use crate::arith::{lemma_pow10_18, lemma_pow10_increases, pow10, ten_pow};
use crate::binops::{spec_div_rounded, spec_mul_rounded};
use crate::{Decimal, DecimalError, MAX_N_FRAC_DIGITS};

verus! {

/// One line item of an order.
#[derive(Clone, Copy)]
pub struct OrderDetail {
    pub quantity: u32,
    pub price: Decimal,
    pub discount: Decimal,
}

impl OrderDetail {
    /// Builds a line item from a quantity, a unit price and a discount
    /// percentage.
    pub fn new(quantity: u32, price: Decimal, discount: Decimal) -> (r: Self)
        ensures
            r.quantity == quantity,
            r.price == price,
            r.discount == discount,
    {
        OrderDetail { quantity, price, discount }
    }

    /// Both decimal fields respect the scale bound.
    pub open spec fn wf(self) -> bool {
        self.price.wf() && self.discount.wf()
    }
}

/// An order: a collection of line items.
pub struct Order {
    pub details: Vec<OrderDetail>,
}

impl Order {
    /// Every line item of the order respects the scale bound.
    pub open spec fn wf(&self) -> bool {
        forall|i: int| 0 <= i < self.details@.len() ==> (#[trigger] self.details@[i]).wf()
    }
}

/// What subtracting a discount percentage from one hundred yields: the
/// exact difference at the discount's own scale, or an overflow report.
pub open spec fn spec_hundred_minus(d: Decimal) -> Result<Decimal, DecimalError> {
    let v = 100 * pow10(d.n_frac_digits as nat) - d.coeff;
    if i128::MIN <= v <= i128::MAX {
        Ok(Decimal { coeff: v as i128, n_frac_digits: d.n_frac_digits })
    } else {
        Err(DecimalError::CoefficientOverflow)
    }
}

/// Subtracts a discount percentage from the value one hundred, keeping the
/// discount's scale.
fn hundred_minus(d: &Decimal) -> (r: Result<Decimal, DecimalError>)
    requires
        d.wf(),
    ensures
        r == spec_hundred_minus(*d),
{
    proof {
        lemma_pow10_increases(d.n_frac_digits as nat, 18);
        lemma_pow10_18();
    }
    let p = ten_pow(d.n_frac_digits);
    let h = 100 * p;
    match h.checked_sub(d.coeff) {
        Some(v) => Ok(Decimal { coeff: v, n_frac_digits: d.n_frac_digits }),
        None => Err(DecimalError::CoefficientOverflow),
    }
}

/// What scaling a value by a whole quantity yields: the exact product at
/// the value's own scale, or an overflow report.
pub open spec fn spec_qty_times(q: u32, d: Decimal) -> Result<Decimal, DecimalError> {
    let v = q * d.coeff;
    if i128::MIN <= v <= i128::MAX {
        Ok(Decimal { coeff: v as i128, n_frac_digits: d.n_frac_digits })
    } else {
        Err(DecimalError::CoefficientOverflow)
    }
}

/// Multiplies a value by a whole quantity, keeping the value's scale.
fn quantity_times(q: u32, d: &Decimal) -> (r: Result<Decimal, DecimalError>)
    ensures
        r == spec_qty_times(q, *d),
{
    match (q as i128).checked_mul(d.coeff) {
        Some(v) => Ok(Decimal { coeff: v, n_frac_digits: d.n_frac_digits }),
        None => Err(DecimalError::CoefficientOverflow),
    }
}

/// The net price of one unit: the discounted fraction of one hundred,
/// rounded to nine digits, times the unit price, rounded to two digits.
pub open spec fn spec_net_price(price: Decimal, discount: Decimal) -> Result<
    Decimal,
    DecimalError,
> {
    match spec_hundred_minus(discount) {
        Err(e) => Err(e),
        Ok(hm) => match spec_div_rounded(
            hm,
            Decimal { coeff: 100, n_frac_digits: 0 },
            9,
        ) {
            Err(e) => Err(e),
            Ok(rate) => spec_mul_rounded(price, rate, 2),
        },
    }
}

/// The total of one line item: its net unit price times its quantity.
pub open spec fn spec_line_total(d: OrderDetail) -> Result<Decimal, DecimalError> {
    match spec_net_price(d.price, d.discount) {
        Err(e) => Err(e),
        Ok(np) => spec_qty_times(d.quantity, np),
    }
}

/// Folds the remaining line items into the running totals, reporting the
/// first failure. An overflowing quantity sum is reported as a coefficient
/// overflow.
pub open spec fn spec_calc_from(s: Seq<OrderDetail>, qty: u32, total: Decimal) -> Result<
    (u32, Decimal),
    DecimalError,
>
    decreases s.len(),
{
    if s.len() == 0 {
        Ok((qty, total))
    } else {
        match spec_line_total(s[0]) {
            Err(e) => Err(e),
            Ok(lt) => {
                if qty + s[0].quantity > u32::MAX {
                    Err(DecimalError::CoefficientOverflow)
                } else {
                    match crate::binops::spec_add(total, lt) {
                        Err(e) => Err(e),
                        Ok(nt) => spec_calc_from(
                            s.subrange(1, s.len() as int),
                            (qty + s[0].quantity) as u32,
                            nt,
                        ),
                    }
                }
            },
        }
    }
}

/// The totals of a whole order, starting from zero of each.
pub open spec fn spec_calc_order(s: Seq<OrderDetail>) -> Result<(u32, Decimal), DecimalError> {
    spec_calc_from(s, 0, Decimal { coeff: 0, n_frac_digits: 0 })
}

/// Builds an [`Order`] from raw line items.
pub trait OrderBuilder {
    /// Collects the given `(quantity, price, discount)` triples into an
    /// order, in their given sequence.
    fn build_order(order_details: &[(u32, Decimal, Decimal)]) -> (r: Order)
        ensures
            r.details@.len() == order_details@.len(),
            forall|i: int|
                0 <= i < order_details@.len() ==> (#[trigger] r.details@[i]).quantity
                    == order_details@[i].0 && r.details@[i].price == order_details@[i].1
                    && r.details@[i].discount == order_details@[i].2,
    ;
}

impl OrderBuilder for Order {
    fn build_order(order_details: &[(u32, Decimal, Decimal)]) -> (r: Order) {
        let mut details: Vec<OrderDetail> = Vec::new();
        let mut idx: usize = 0;
        while idx < order_details.len()
            invariant
                idx <= order_details@.len(),
                details@.len() == idx,
                forall|i: int|
                    0 <= i < idx as int ==> (#[trigger] details@[i]).quantity
                        == order_details@[i].0 && details@[i].price == order_details@[i].1
                        && details@[i].discount == order_details@[i].2,
            decreases order_details@.len() - idx,
        {
            let item = order_details[idx];
            details.push(OrderDetail::new(item.0, item.1, item.2));
            idx = idx + 1;
        }
        Order { details }
    }
}

/// Computes an order's totals.
pub trait OrderCalculator {
    /// The well-formedness the computation expects of `self`.
    spec fn calc_wf(&self) -> bool;

    /// The totals the computation must deliver.
    spec fn calc_spec(&self) -> Result<(u32, Decimal), DecimalError>;

    /// Folds all line items into a total quantity and a total value.
    fn calc_order(&self) -> (r: Result<(u32, Decimal), DecimalError>)
        requires
            self.calc_wf(),
        ensures
            r == self.calc_spec(),
    ;
}

impl OrderCalculator for Order {
    open spec fn calc_wf(&self) -> bool {
        self.wf()
    }

    open spec fn calc_spec(&self) -> Result<(u32, Decimal), DecimalError> {
        spec_calc_order(self.details@)
    }

    #[verifier::loop_isolation(false)]
    fn calc_order(&self) -> (r: Result<(u32, Decimal), DecimalError>) {
        let hundred = Decimal::new_raw(100, 0);
        let mut total_qty: u32 = 0;
        let mut total_value = Decimal::zero();
        let ghost s = self.details@;
        proof {
            assert(s.subrange(0, s.len() as int) =~= s);
        }
        let mut i: usize = 0;
        while i < self.details.len()
            invariant
                i <= s.len(),
                total_value.wf(),
                spec_calc_from(s.subrange(i as int, s.len() as int), total_qty, total_value)
                    == spec_calc_order(s),
            decreases s.len() - i,
        {
            let ghost tail = s.subrange(i as int, s.len() as int);
            proof {
                assert(tail[0] == s[i as int]);
                assert(tail.subrange(1, tail.len() as int) =~= s.subrange(
                    i + 1 as int,
                    s.len() as int,
                ));
            }
            let dtl = self.details[i];
            let hm = match hundred_minus(&dtl.discount) {
                Ok(v) => v,
                Err(e) => {
                    return Err(e);
                },
            };
            let rate = match hm.div_rounded(&hundred, 9) {
                Ok(v) => v,
                Err(e) => {
                    return Err(e);
                },
            };
            let net_price = match dtl.price.mul_rounded(&rate, 2) {
                Ok(v) => v,
                Err(e) => {
                    return Err(e);
                },
            };
            let dtl_total = match quantity_times(dtl.quantity, &net_price) {
                Ok(v) => v,
                Err(e) => {
                    return Err(e);
                },
            };
            let new_qty = match total_qty.checked_add(dtl.quantity) {
                Some(v) => v,
                None => {
                    return Err(DecimalError::CoefficientOverflow);
                },
            };
            total_value = match total_value.checked_add(&dtl_total) {
                Ok(v) => v,
                Err(e) => {
                    return Err(e);
                },
            };
            total_qty = new_qty;
            i = i + 1;
        }
        proof {
            assert(s.subrange(s.len() as int, s.len() as int) =~= Seq::<OrderDetail>::empty());
        }
        Ok((total_qty, total_value))
    }
}

} // verus!
