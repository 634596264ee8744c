//! The order harness computed three ways: with the exact decimal core, with
//! binary floating point (which diverges), and cross-checked against an
//! independent decimal implementation.

use std::str::FromStr;

use fpdec::order::{Order, OrderBuilder, OrderCalculator};
use fpdec::Decimal;

/// The reference set of 300 line items: quantity, unit price and discount
/// percentage, the latter two as integer coefficients at scale 2.
fn order_details() -> Vec<(u32, i64, i64)> {
    vec![
        (4, 1995, 1750),
        (49, 4990, 3000),
        (78, 795, 1500),
        (126, 795, 3000),
        (100, 1295, 1500),
        (146, 795, 1750),
        (8, 1295, 3000),
        (59, 1995, 3000),
        (58, 4990, 3000),
        (26, 795, 1750),
        (125, 1995, 1500),
        (26, 4990, 3000),
        (87, 4990, 1500),
        (30, 1295, 3000),
        (111, 1995, 1500),
        (46, 4800, 1750),
        (132, 4990, 1750),
        (96, 3200, 1500),
        (139, 3200, 1750),
        (57, 1995, 1750),
        (65, 1295, 1500),
        (49, 3200, 1750),
        (62, 4800, 1500),
        (25, 4800, 3000),
        (137, 3200, 1500),
        (120, 795, 1500),
        (59, 3200, 1500),
        (19, 795, 1500),
        (52, 795, 1750),
        (114, 4990, 1500),
        (143, 3200, 1500),
        (79, 4800, 1750),
        (107, 4800, 1500),
        (5, 4800, 1500),
        (2, 795, 1750),
        (123, 4800, 1500),
        (89, 795, 1750),
        (63, 3200, 1750),
        (19, 795, 1500),
        (92, 1295, 1500),
        (53, 4800, 1500),
        (72, 1295, 3000),
        (116, 4800, 3000),
        (61, 4800, 3000),
        (5, 795, 1750),
        (108, 1995, 1750),
        (71, 795, 1500),
        (59, 3200, 1750),
        (93, 3200, 1750),
        (45, 795, 1750),
        (140, 4800, 1750),
        (43, 3200, 1750),
        (28, 4800, 1500),
        (55, 1995, 1750),
        (87, 4800, 1750),
        (126, 4990, 3000),
        (18, 1995, 3000),
        (80, 4990, 3000),
        (7, 795, 1500),
        (109, 1995, 1750),
        (137, 4990, 1750),
        (6, 795, 1750),
        (73, 1995, 3000),
        (57, 3200, 3000),
        (37, 4990, 1500),
        (20, 1295, 1500),
        (40, 1995, 1500),
        (66, 3200, 1500),
        (111, 4990, 1750),
        (82, 4990, 1500),
        (28, 1295, 1500),
        (66, 4800, 1750),
        (144, 4800, 3000),
        (68, 4800, 1500),
        (131, 3200, 3000),
        (143, 1295, 1500),
        (85, 4990, 3000),
        (109, 3200, 3000),
        (43, 1295, 1500),
        (88, 1995, 1500),
        (126, 1295, 1750),
        (56, 1995, 3000),
        (120, 3200, 1500),
        (101, 1295, 1750),
        (106, 4800, 3000),
        (107, 1295, 1500),
        (28, 1995, 3000),
        (1, 795, 1750),
        (13, 1295, 1750),
        (88, 4990, 1500),
        (37, 4990, 1750),
        (92, 4990, 1500),
        (1, 1295, 1750),
        (18, 1295, 3000),
        (25, 1995, 1500),
        (106, 3200, 1750),
        (32, 795, 1500),
        (32, 4990, 1500),
        (123, 4800, 1750),
        (56, 4990, 1750),
        (85, 795, 1500),
        (5, 795, 1750),
        (120, 1295, 1500),
        (45, 1295, 1500),
        (6, 3200, 1750),
        (110, 1995, 3000),
        (50, 795, 1750),
        (91, 795, 1750),
        (106, 1295, 3000),
        (84, 3200, 1500),
        (22, 1295, 1750),
        (4, 1995, 1500),
        (99, 4990, 3000),
        (70, 1995, 3000),
        (81, 4800, 3000),
        (79, 1295, 1500),
        (85, 3200, 1500),
        (142, 1995, 1500),
        (126, 795, 1750),
        (40, 4990, 1500),
        (149, 3200, 1750),
        (117, 3200, 3000),
        (130, 4800, 1750),
        (44, 1295, 1750),
        (46, 795, 1500),
        (47, 4990, 3000),
        (7, 4990, 3000),
        (82, 795, 1500),
        (87, 4800, 3000),
        (136, 795, 1500),
        (149, 3200, 1500),
        (78, 1995, 1500),
        (21, 4800, 1500),
        (35, 1995, 3000),
        (57, 1995, 1500),
        (142, 4990, 1750),
        (76, 1295, 1500),
        (8, 1295, 1500),
        (12, 1995, 1750),
        (76, 4800, 3000),
        (73, 1295, 1750),
        (95, 4800, 1500),
        (1, 1995, 3000),
        (97, 4990, 1750),
        (69, 4800, 3000),
        (67, 4990, 1500),
        (89, 795, 3000),
        (140, 4990, 1750),
        (87, 1295, 1750),
        (14, 1295, 3000),
        (118, 1995, 1500),
        (71, 1995, 3000),
        (54, 4990, 1750),
        (30, 3200, 3000),
        (120, 3200, 1750),
        (48, 4990, 1750),
        (81, 4800, 1500),
        (79, 4990, 1750),
        (122, 1295, 3000),
        (106, 4990, 3000),
        (76, 795, 3000),
        (60, 3200, 1750),
        (143, 1295, 3000),
        (6, 4800, 3000),
        (89, 795, 1750),
        (20, 795, 1500),
        (121, 4800, 1500),
        (121, 1995, 1750),
        (82, 1995, 1500),
        (96, 1295, 1500),
        (53, 4800, 3000),
        (97, 4800, 1750),
        (22, 4990, 3000),
        (40, 795, 3000),
        (27, 4990, 1500),
        (128, 3200, 1500),
        (63, 795, 1500),
        (79, 795, 1750),
        (88, 4990, 1750),
        (102, 4990, 1500),
        (54, 4800, 1500),
        (2, 4800, 1750),
        (104, 3200, 1500),
        (69, 1995, 1750),
        (23, 1995, 1500),
        (48, 3200, 1750),
        (87, 3200, 3000),
        (96, 795, 1750),
        (77, 795, 1500),
        (48, 4990, 3000),
        (4, 795, 1750),
        (108, 1295, 3000),
        (31, 1995, 1750),
        (36, 3200, 3000),
        (148, 1295, 3000),
        (133, 4800, 3000),
        (27, 795, 3000),
        (117, 3200, 3000),
        (15, 3200, 1750),
        (105, 795, 1750),
        (129, 1295, 1750),
        (107, 4800, 1750),
        (106, 4800, 3000),
        (64, 3200, 3000),
        (119, 4990, 3000),
        (111, 795, 1500),
        (150, 1995, 3000),
        (45, 795, 3000),
        (88, 4800, 3000),
        (14, 4990, 1750),
        (16, 4800, 3000),
        (55, 795, 1750),
        (123, 4800, 1500),
        (15, 3200, 3000),
        (85, 4800, 1750),
        (14, 795, 1500),
        (11, 1995, 1750),
        (144, 1995, 1500),
        (100, 1295, 1750),
        (23, 1295, 1500),
        (31, 4800, 3000),
        (138, 4800, 3000),
        (33, 4800, 1500),
        (36, 1995, 3000),
        (148, 1295, 1500),
        (99, 3200, 1750),
        (71, 3200, 1500),
        (95, 1995, 1750),
        (100, 795, 1750),
        (139, 1295, 1500),
        (106, 795, 3000),
        (81, 795, 1750),
        (122, 4990, 1750),
        (96, 795, 3000),
        (82, 795, 1750),
        (148, 4990, 1500),
        (8, 4800, 1750),
        (14, 4800, 1750),
        (140, 4800, 1500),
        (82, 1995, 1500),
        (26, 1295, 1750),
        (94, 3200, 1750),
        (22, 1995, 3000),
        (79, 3200, 1750),
        (51, 4800, 1750),
        (61, 4990, 3000),
        (62, 4990, 3000),
        (143, 4990, 1500),
        (19, 795, 3000),
        (8, 3200, 1750),
        (123, 3200, 1500),
        (142, 795, 1750),
        (77, 1995, 1750),
        (111, 3200, 1750),
        (116, 4800, 3000),
        (27, 1995, 1750),
        (31, 1295, 1750),
        (87, 1295, 1750),
        (120, 4990, 3000),
        (74, 795, 1750),
        (124, 1995, 3000),
        (94, 795, 1750),
        (139, 3200, 1500),
        (79, 1295, 1500),
        (13, 1295, 3000),
        (78, 1995, 1750),
        (147, 1995, 1500),
        (93, 795, 1500),
        (140, 3200, 3000),
        (73, 4800, 1500),
        (33, 4800, 1500),
        (37, 1995, 3000),
        (83, 4800, 1500),
        (69, 3200, 1750),
        (101, 3200, 3000),
        (12, 4990, 3000),
        (78, 795, 1750),
        (116, 3200, 1500),
        (104, 1295, 1750),
        (116, 795, 1500),
        (84, 795, 3000),
        (37, 4800, 3000),
        (77, 1995, 3000),
        (41, 795, 3000),
        (83, 1295, 1500),
        (46, 4800, 1750),
        (11, 4800, 3000),
        (104, 1295, 1500),
        (33, 1995, 1500),
        (68, 4800, 1750),
        (22, 795, 1750),
        (109, 4800, 1500),
        (64, 1295, 1750),
        (141, 795, 1750),
        (43, 4990, 3000),
        (21, 1995, 1750),
        (35, 3200, 3000),
        (9, 4990, 1750),
        (7, 1995, 1500),
        (55, 3200, 1750),
    ]
}

#[test]
fn lib_test_order() {
    let details: Vec<(u32, Decimal, Decimal)> = order_details()
        .iter()
        .map(|&(q, p, d)| {
            (q, Decimal::new_raw(p as i128, 2), Decimal::new_raw(d as i128, 2))
        })
        .collect();
    let order = Order::build_order(&details);
    let (total_qty, total_value) = order.calc_order().unwrap();
    assert_eq!(total_qty, 22040);
    assert_eq!(total_value, Decimal::new_raw(50750586, 2));
}

#[test]
fn test_order_f64_diverges() {
    fn round2(val: f64) -> f64 {
        (val * 100_f64).round() / 100_f64
    }
    fn round9(val: f64) -> f64 {
        (val * 1000000000_f64).round() / 1000000000_f64
    }
    let mut total_qty = 0_u32;
    let mut total_value = 0_f64;
    for (q, p, d) in order_details() {
        let price = p as f64 / 100.0;
        let discount = d as f64 / 100.0;
        let rate = round9((100_f64 - discount) / 100_f64);
        let net_price = round2(price * rate);
        let dtl_total = q as f64 * net_price;
        total_qty += q;
        total_value += dtl_total;
    }
    assert_eq!(total_qty, 22040);
    assert_eq!(total_value.round(), 507521.);
}

#[test]
fn test_order_rust_decimal() {
    let mut total_qty = 0_u32;
    let mut total_value = rust_decimal::Decimal::ZERO;
    for (q, p, d) in order_details() {
        let price = rust_decimal::Decimal::from_str(&format!("{}.{:02}", p / 100, p % 100))
            .unwrap();
        let discount =
            rust_decimal::Decimal::from_str(&format!("{}.{:02}", d / 100, d % 100)).unwrap();
        let rate = ((rust_decimal::Decimal::ONE_HUNDRED - discount)
            / rust_decimal::Decimal::ONE_HUNDRED)
            .round_dp(9);
        let net_price = (price * rate).round_dp(2);
        let dtl_total = rust_decimal::Decimal::from(q) * net_price;
        total_qty += q;
        total_value += dtl_total;
    }
    assert_eq!(total_qty, 22040);
    assert_eq!(total_value, rust_decimal::Decimal::new(50750586, 2));
}
