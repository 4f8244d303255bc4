use dire_matching_engine::{
    match_order, Decimal, InstrumentId, Order, OrderBook, OrderId, OrderType, Side, TimeInForce, TraderId,
};

/// A natural number of any size, least significant limb first.
#[derive(Clone, Debug, PartialEq, Eq)]
struct Big(Vec<u32>);

impl Big {
    fn from_u128(mut n: u128) -> Big {
        let mut limbs = Vec::new();
        while n > 0 {
            limbs.push(n as u32);
            n >>= 32;
        }
        Big(limbs)
    }

    fn times_small(&self, k: u32) -> Big {
        let mut out = Vec::new();
        let mut carry: u64 = 0;
        for limb in &self.0 {
            let v = *limb as u64 * k as u64 + carry;
            out.push(v as u32);
            carry = v >> 32;
        }
        if carry > 0 {
            out.push(carry as u32);
        }
        Big(out).trimmed()
    }

    fn times_pow10(&self, k: u32) -> Big {
        let mut out = self.clone();
        for _ in 0..k {
            out = out.times_small(10);
        }
        out
    }

    fn plus(&self, other: &Big) -> Big {
        let mut out = Vec::new();
        let mut carry: u64 = 0;
        for i in 0..self.0.len().max(other.0.len()) {
            let v = *self.0.get(i).unwrap_or(&0) as u64 + *other.0.get(i).unwrap_or(&0) as u64 + carry;
            out.push(v as u32);
            carry = v >> 32;
        }
        if carry > 0 {
            out.push(carry as u32);
        }
        Big(out).trimmed()
    }

    /// `self - other`, for `other <= self`.
    fn minus(&self, other: &Big) -> Big {
        let mut out = Vec::new();
        let mut borrow: i64 = 0;
        for i in 0..self.0.len() {
            let mut v = self.0[i] as i64 - *other.0.get(i).unwrap_or(&0) as i64 - borrow;
            if v < 0 {
                v += 1 << 32;
                borrow = 1;
            } else {
                borrow = 0;
            }
            out.push(v as u32);
        }
        assert_eq!(borrow, 0);
        Big(out).trimmed()
    }

    fn trimmed(mut self) -> Big {
        while self.0.last() == Some(&0) {
            self.0.pop();
        }
        self
    }

    fn less_than(&self, other: &Big) -> bool {
        if self.0.len() != other.0.len() {
            return self.0.len() < other.0.len();
        }
        for i in (0..self.0.len()).rev() {
            if self.0[i] != other.0[i] {
                return self.0[i] < other.0[i];
            }
        }
        false
    }
}

/// The decimal in units of `10^-scale`, for a scale that is not narrower.
fn at_scale(d: Decimal, scale: u32) -> Big {
    assert!(d.mantissa() >= 0 && d.scale() <= scale);
    Big::from_u128(d.mantissa() as u128).times_pow10(scale - d.scale())
}

fn limit_96() -> Big {
    Big::from_u128(1u128 << 96)
}

struct Random(u64);

impl Random {
    fn next(&mut self) -> u64 {
        self.0 ^= self.0 << 13;
        self.0 ^= self.0 >> 7;
        self.0 ^= self.0 << 17;
        self.0
    }

    /// A decimal above zero: mantissas of all sizes up to 96 bits, scales from 0 to 28.
    fn decimal(&mut self) -> Decimal {
        let bits = 1 + self.next() % 96;
        let raw = ((self.next() as u128) << 64 | self.next() as u128) >> (128 - bits);
        let mantissa = if self.next() % 8 == 0 { (1u128 << bits) - 1 } else { raw.max(1) };
        let scale = (self.next() % 29) as u32;
        Decimal::new(mantissa as i128, scale).unwrap()
    }
}

fn order(id: u64, side: Side, quantity: Decimal, trader: u64) -> Order {
    Order {
        order_id: OrderId(id),
        client_order_id: String::new(),
        instrument_id: InstrumentId(1),
        side,
        order_type: OrderType::Limit,
        quantity,
        price: Some(Decimal::from(1)),
        time_in_force: TimeInForce::IOC,
        timestamp: 0,
        trader_id: TraderId(trader),
    }
}

/// Where the exact sum of two numbers above zero can be written at the wider
/// of their scales, the sum that the book computes is that sum, at a scale
/// that is no wider.
#[test]
fn sums_are_exact_where_they_fit() {
    let mut random = Random(0x9E3779B97F4A7C15);
    let mut exact = 0;
    for _ in 0..20000 {
        let a = random.decimal();
        let b = random.decimal();
        let mut book = OrderBook::new(InstrumentId(1));
        book.add_order(&order(1, Side::Sell, a, 1)).unwrap();
        book.add_order(&order(2, Side::Sell, b, 1)).unwrap();
        let total = book.available_ask_qty_at_or_below(Decimal::from(1), TraderId(2));
        let wider = a.scale().max(b.scale());
        let sum = at_scale(a, wider).plus(&at_scale(b, wider));
        if sum.less_than(&limit_96()) {
            assert!(total.scale() <= wider, "{:?} + {:?} = {:?}", a, b, total);
            assert_eq!(at_scale(total, wider), sum, "{:?} + {:?} = {:?}", a, b, total);
            exact += 1;
        }
        assert!(total.mantissa() > 0);
    }
    assert!(exact > 2000);
}

/// Where the exact difference of a number and one that is not greater can be
/// written at the wider of their scales, the difference that matching
/// computes is that difference, at a scale that is no wider: for what is
/// left of the incoming order as for what is left of the resting order.
#[test]
fn differences_are_exact_where_they_fit() {
    let mut random = Random(0xD1B54A32D192ED03);
    let mut exact = 0;
    for round in 0..20000 {
        let x = random.decimal();
        let y = if round % 16 == 0 { x } else { random.decimal() };
        let (resting, incoming) = (x, y);
        let mut book = OrderBook::new(InstrumentId(1));
        book.add_order(&order(1, Side::Sell, resting, 1)).unwrap();
        let (trades, reports) = match_order(&mut book, &order(2, Side::Buy, incoming, 2), 1, 1);
        assert_eq!(trades.len(), 1);
        let wider = resting.scale().max(incoming.scale());
        let (r, i) = (at_scale(resting, wider), at_scale(incoming, wider));
        if i.less_than(&r) {
            // the incoming order is used up, the resting order keeps the difference
            assert_eq!(trades[0].quantity.mantissa(), incoming.mantissa());
            assert_eq!(trades[0].quantity.scale(), incoming.scale());
            let left = book.available_ask_qty_at_or_below(Decimal::from(1), TraderId(2));
            let difference = r.minus(&i);
            if difference.less_than(&limit_96()) {
                assert!(left.scale() <= wider, "{:?} - {:?} = {:?}", resting, incoming, left);
                assert_eq!(at_scale(left, wider), difference, "{:?} - {:?} = {:?}", resting, incoming, left);
                exact += 1;
            }
            // what is left of the incoming order is its quantity less itself
            assert_eq!(reports[1].remaining_quantity.mantissa(), 0);
        } else {
            // the resting order is used up, the incoming order keeps the difference
            assert!(!book.has_resting_orders());
            assert_eq!(trades[0].quantity, resting);
            let left = reports[1].remaining_quantity;
            let difference = i.minus(&r);
            if difference.less_than(&limit_96()) {
                assert!(left.scale() <= wider, "{:?} - {:?} = {:?}", incoming, resting, left);
                assert_eq!(at_scale(left, wider), difference, "{:?} - {:?} = {:?}", incoming, resting, left);
                exact += 1;
            }
        }
    }
    assert!(exact > 2000);
}

/// The order of two decimals is the order of the numbers, whatever their
/// scales.
#[test]
fn comparison_is_exact() {
    let mut random = Random(0x2545F4914F6CDD1D);
    for round in 0..20000 {
        let a = random.decimal();
        let b = if round % 16 == 0 {
            // the same number at another scale, where it can be written
            match Decimal::new(a.mantissa() * 10, a.scale() + 1) {
                Some(b) => b,
                None => a,
            }
        } else {
            random.decimal()
        };
        let (x, y) = (at_scale(a, 28), at_scale(b, 28));
        assert_eq!(a < b, x.less_than(&y), "{:?} {:?}", a, b);
        assert_eq!(a > b, y.less_than(&x), "{:?} {:?}", a, b);
        assert_eq!(a == b, x == y, "{:?} {:?}", a, b);
        assert_eq!(a <= b, !y.less_than(&x));
        assert_eq!(a >= b, !x.less_than(&y));
        let (na, nb) = (Decimal::new(-a.mantissa(), a.scale()).unwrap(), Decimal::new(-b.mantissa(), b.scale()).unwrap());
        assert_eq!(na < nb, y.less_than(&x));
        assert!(na < b);
        assert!(na < Decimal::zero());
    }
}
