//! What has been executed of an order, and for how much.

use crate::order::{Order, Price, Volume};
use vstd::prelude::*;

verus! {

/// The executions of an order, taken together: their volume, and the sum of price times volume.
/// Executions whose price is not known do not count.
pub struct Fills {
    pub value: nat,
    pub volume: nat,
}

impl Fills {
    /// The executions that an order tells of when it comes to a book: what it had executed before,
    /// at its average price.
    pub open spec fn of(order: Order) -> Fills {
        match order.executed_price {
            Some(price) => Fills {
                value: (price * order.executed_volume) as nat,
                volume: order.executed_volume as nat,
            },
            None => Fills { value: 0, volume: 0 },
        }
    }

    /// Executions of `volume` more, for `value` more.
    pub open spec fn more(self, value: int, volume: int) -> Fills {
        Fills { value: (self.value + value) as nat, volume: (self.volume + volume) as nat }
    }

    /// One execution more.
    pub open spec fn plus(self, price: Price, volume: int) -> Fills {
        self.more(price * volume, volume)
    }

    /// The average price, in whole ticks, rounded down.
    pub open spec fn average(self) -> Price {
        (self.value / self.volume) as u64
    }

    /// All prices were at least `low` and at most `high`, as far as the sums tell.
    pub open spec fn between(self, low: Price, high: Price) -> bool {
        low * self.volume <= self.value <= high * self.volume
    }

    /// These can be executions of `order`.
    pub open spec fn fit(self, order: Order) -> bool {
        &&& self.volume <= order.executed_volume
        &&& self.between(0, u64::MAX)
    }

    /// More executions between the same prices.
    pub proof fn lemma_more_between(self, value: int, volume: int, low: Price, high: Price)
        requires
            self.between(low, high),
            low * volume <= value <= high * volume,
            volume >= 0,
        ensures
            value >= 0,
            self.more(value, volume).between(low, high),
    {
        assert(low * volume >= 0) by (nonlinear_arith)
            requires
                low >= 0,
                volume >= 0,
        ;
        assert(low * (self.volume + volume) == low * self.volume + low * volume) by (nonlinear_arith);
        assert(high * (self.volume + volume) == high * self.volume + high * volume)
            by (nonlinear_arith);
    }

    /// One execution more between the same prices.
    pub proof fn lemma_plus_between(self, price: Price, volume: int, low: Price, high: Price)
        requires
            self.between(low, high),
            low <= price <= high,
            volume >= 0,
        ensures
            self.plus(price, volume).between(low, high),
            0 <= price * volume,
    {
        assert(low * volume <= price * volume <= high * volume) by (nonlinear_arith)
            requires
                low <= price <= high,
                volume >= 0,
        ;
        self.lemma_more_between(price * volume, volume, low, high);
    }

    /// The average lies between the prices, and is what the division gives.
    pub proof fn lemma_average(self, low: Price, high: Price)
        requires
            self.between(low, high),
            self.volume > 0,
        ensures
            self.average() == self.value / self.volume,
            low <= self.average() <= high,
            self.average() * self.volume <= self.value < (self.average() + 1) * self.volume,
    {
        let v = self.value as int;
        let n = self.volume as int;
        vstd::arithmetic::div_mod::lemma_div_is_ordered(low * n, v, n);
        vstd::arithmetic::div_mod::lemma_div_is_ordered(v, high * n, n);
        vstd::arithmetic::div_mod::lemma_div_by_multiple(low as int, n);
        vstd::arithmetic::div_mod::lemma_div_by_multiple(high as int, n);
        vstd::arithmetic::div_mod::lemma_fundamental_div_mod(v, n);
        vstd::arithmetic::div_mod::lemma_mod_bound(v, n);
        let q = v / n;
        assert(n * q == q * n && (q + 1) * n == q * n + n) by (nonlinear_arith);
    }

    /// The executions that an order tells of fit it.
    pub proof fn lemma_of_fits(order: Order)
        ensures
            Fills::of(order).fit(order),
    {
        if let Some(price) = order.executed_price {
            let n = order.executed_volume;
            assert(0 <= price * n <= u64::MAX * n) by (nonlinear_arith)
                requires
                    0 <= price <= u64::MAX,
                    0 <= n,
            ;
        }
    }

    /// With one execution more, the executions fit the order that has executed as much more.
    pub proof fn lemma_plus_fits(self, order: Order, price: Price, volume: int)
        requires
            self.fit(order),
            0 <= volume <= order.remaining(),
        ensures
            self.plus(price, volume).fit(order.filled(self, price, volume)),
            self.plus(price, volume).value == self.value + price * volume,
            self.plus(price, volume).volume == self.volume + volume,
    {
        self.lemma_plus_between(price, volume, 0, u64::MAX);
    }
}

impl Order {
    /// This order, with `volume` more of it executed, so that its executions are `fills`.
    pub open spec fn after(self, fills: Fills, volume: int) -> Order {
        Order {
            executed_price: if volume <= 0 {
                self.executed_price
            } else {
                Some(fills.average())
            },
            executed_volume: (self.executed_volume + volume) as u64,
            ..self
        }
    }

    /// This order, whose executions were `fills`, with `volume` more of it executed at `price`.
    pub open spec fn filled(self, fills: Fills, price: Price, volume: int) -> Order {
        self.after(fills.plus(price, volume), volume)
    }

    /// One execution, and then more: together they are all of them at once.
    pub proof fn lemma_after_filled(
        self,
        fills: Fills,
        price: Price,
        part: int,
        value: int,
        volume: int,
    )
        requires
            fills.fit(self),
            0 <= part <= self.remaining(),
            0 <= volume,
            0 <= value,
            volume == 0 ==> value == 0,
            self.volume >= self.executed_volume,
        ensures
            ({
                let all = fills.more(price * part + value, part + volume);
                let first = self.filled(fills, price, part);
                &&& fills.plus(price, part).fit(first)
                &&& first.executed_volume == self.executed_volume + part
                &&& part == 0 ==> first == self && fills.plus(price, part) == fills
                &&& fills.plus(price, part).more(value, volume) == all
                &&& volume > 0 ==> first.after(all, volume) == self.after(all, part + volume)
                &&& volume == 0 ==> self.after(all, part + volume) == first
            }),
    {
        fills.lemma_plus_fits(self, price, part);
        fills.lemma_plus_between(price, part, 0, u64::MAX);
        if part == 0 {
            assert(price * part == 0) by (nonlinear_arith)
                requires
                    part == 0,
            ;
        }
    }

    /// Notes that `volume` more has been executed, so that the executions are `totals`.
    pub(crate) fn execute(&mut self, totals: FillTotals, volume: Volume)
        requires
            old(self).executed_volume + volume <= u64::MAX,
            volume > 0 ==> totals@.volume > 0 && totals@.between(0, u64::MAX),
        ensures
            *final(self) == old(self).after(totals@, volume as int),
    {
        if volume > 0 {
            proof {
                totals@.lemma_average(0, u64::MAX);
            }
            self.executed_price = Some((totals.value / totals.volume as u128) as u64);
        }
        self.executed_volume = self.executed_volume + volume;
    }
}

/// The executions of an order, as they are kept beside it while it is on the book.
#[derive(Debug, Copy, Clone, PartialEq, Eq, Structural)]
pub(crate) struct FillTotals {
    value: u128,
    volume: u64,
}

impl View for FillTotals {
    type V = Fills;

    closed spec fn view(&self) -> Fills {
        Fills { value: self.value as nat, volume: self.volume as nat }
    }
}

impl FillTotals {
    /// The executions that an order tells of.
    pub(crate) fn of(order: &Order) -> (res: Self)
        ensures
            res@ == Fills::of(*order),
    {
        match order.executed_price {
            Some(price) => {
                let done: u64 = order.executed_volume;
                assert(0 <= price * done <= u64::MAX * u64::MAX) by (nonlinear_arith)
                    requires
                        0 <= price <= u64::MAX,
                        0 <= done <= u64::MAX,
                ;
                FillTotals { value: price as u128 * done as u128, volume: done }
            },
            None => FillTotals { value: 0, volume: 0 },
        }
    }

    /// One execution more.
    pub(crate) fn plus(self, price: Price, volume: Volume) -> (res: Self)
        requires
            self@.between(0, u64::MAX),
            self@.volume + volume <= u64::MAX,
        ensures
            res@ == self@.plus(price, volume as int),
            res@.between(0, u64::MAX),
    {
        proof {
            self@.lemma_plus_between(price, volume as int, 0, u64::MAX);
            let n = self@.volume + volume;
            assert(u64::MAX * n <= u64::MAX * u64::MAX) by (nonlinear_arith)
                requires
                    n <= u64::MAX,
            ;
        }
        FillTotals {
            value: self.value + price as u128 * volume as u128,
            volume: self.volume + volume,
        }
    }
}

} // verus!
