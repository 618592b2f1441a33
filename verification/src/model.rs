//! Core data model: users, assets, baskets and bids.
//!
//! Prices and balances are plain integers in one currency unit. Bid
//! fractions and asset quantities are integers scaled by [`FRACTION_SCALE`]:
//! a fraction lies in `1..=FRACTION_SCALE`, and an asset quantity of one
//! whole unit is `FRACTION_SCALE` micro-units.

use vstd::prelude::*;

verus! {

/// Denominator of bid fractions, and the number of quantity
/// micro-units in one whole unit of an asset.
pub const FRACTION_SCALE: u64 = 1_000_000;

/// Largest unit price an asset may carry (a machine limit that keeps
/// every value computation inside the integer types used here).
pub const MAX_ASSET_PRICE: u64 = 1_000_000_000;

/// Largest scaled quantity an asset may carry (one million whole units).
pub const MAX_ASSET_QUANTITY: u64 = 1_000_000_000_000;

/// Largest number of distinct assets in one basket.
pub const MAX_BASKET_ASSETS: usize = 128;

/// A participant with an identity and a mutable monetary balance.
/// The balance is mutated only during settlement.
#[derive(Clone, Debug)]
pub struct User {
    pub id: u64,
    pub name: String,
    pub balance: u64,
}

impl User {
    pub fn new(id: u64, name: &str, balance: u64) -> (r: Self)
        ensures
            r.id == id,
            r.name@ == name@,
            r.balance == balance,
    {
        User { id, name: name.to_owned(), balance }
    }

    pub fn deposit(&mut self, amount: u64)
        requires
            old(self).balance + amount <= u64::MAX,
        ensures
            final(self).balance == old(self).balance + amount,
            final(self).id == old(self).id,
            final(self).name == old(self).name,
    {
        self.balance = self.balance + amount;
    }

    pub fn withdraw(&mut self, amount: u64)
        requires
            amount <= old(self).balance,
        ensures
            final(self).balance == old(self).balance - amount,
            final(self).id == old(self).id,
            final(self).name == old(self).name,
    {
        self.balance = self.balance - amount;
    }

    pub fn can_afford(&self, amount: u64) -> (r: bool)
        ensures
            r == (self.balance >= amount),
    {
        self.balance >= amount
    }
}

/// Produces a copy of a user that is equal to the original.
pub fn clone_user(u: &User) -> (r: User)
    ensures
        r == *u,
{
    User { id: u.id, name: u.name.clone(), balance: u.balance }
}

/// A tradable instrument named by a base/quote symbol pair.
/// Two assets are the same exactly when both symbols agree.
#[derive(Clone, Debug, Hash)]
pub struct Asset {
    pub base: String,
    pub quote: String,
}

/// Symbol-pair equality of two assets, at the specification level.
pub open spec fn asset_same(a: Asset, b: Asset) -> bool {
    a.base@ == b.base@ && a.quote@ == b.quote@
}

impl PartialEq for Asset {
    fn eq(&self, other: &Self) -> (r: bool) {
        self.base == other.base && self.quote == other.quote
    }
}

impl vstd::std_specs::cmp::PartialEqSpecImpl for Asset {
    open spec fn obeys_eq_spec() -> bool {
        true
    }

    open spec fn eq_spec(&self, other: &Self) -> bool {
        asset_same(*self, *other)
    }
}

/// Index of the first character `c` in `s`, if any.
pub open spec fn first_char_at(s: Seq<char>, c: char) -> int {
    choose|i: int| 0 <= i < s.len() && s[i] == c && forall|j: int| 0 <= j < i ==> s[j] != c
}

/// True when `s` holds the character `c` somewhere.
pub open spec fn has_char(s: Seq<char>, c: char) -> bool {
    exists|i: int| 0 <= i < s.len() && s[i] == c
}

impl Asset {
    pub fn new(base: &str, quote: &str) -> (r: Self)
        ensures
            r.base@ == base@,
            r.quote@ == quote@,
    {
        Asset { base: base.to_owned(), quote: quote.to_owned() }
    }

    /// Parses `"BASE/QUOTE"`: the base symbol is everything before the
    /// first `/`, the quote symbol everything after it up to the next
    /// `/` or the end of the string.
    pub fn from_str(s: &str) -> (r: Self)
        requires
            has_char(s@, '/'),
        ensures
            ({
                let i = first_char_at(s@, '/');
                &&& r.base@ == s@.subrange(0, i)
                &&& (if has_char(s@.subrange(i + 1, s@.len() as int), '/') {
                    r.quote@ == s@.subrange(
                        i + 1,
                        i + 1 + first_char_at(s@.subrange(i + 1, s@.len() as int), '/'),
                    )
                } else {
                    r.quote@ == s@.subrange(i + 1, s@.len() as int)
                })
            }),
    {
        let n: usize = s.unicode_len();
        let i = find_char_from(s, 0, '/');
        proof {
            if i == n {
                let w = choose|w: int| 0 <= w < s@.len() && s@[w] == '/';
                assert(s@[w] != '/');
            }
            let k = first_char_at(s@, '/');
            assert(0 <= k < s@.len() && s@[k] == '/' && forall|j: int| 0 <= j < k ==> s@[j] != '/');
            if k < i {
                assert(s@[k] != '/');
            }
            if i < k {
                assert(s@[i as int] != '/');
            }
            assert(k == i as int);
        }
        let base_part = s.substring_char(0, i);
        // the quote symbol ends at the next '/' after position i, if any
        let j = find_char_from(s, i + 1, '/');
        let quote_part = s.substring_char(i + 1, j);
        proof {
            let rest = s@.subrange(i + 1, s@.len() as int);
            if j < n {
                assert(rest[j - i - 1] == s@[j as int]);
                assert(has_char(rest, '/'));
            }
            if has_char(rest, '/') {
                let m = first_char_at(rest, '/');
                assert(0 <= m < rest.len() && rest[m] == '/' && forall|w: int|
                    0 <= w < m ==> rest[w] != '/');
                assert(s@[i + 1 + m] == rest[m]);
                if j as int - i - 1 < m {
                    assert(j < n);
                    assert(rest[j - i - 1] != '/');
                }
                if m < j as int - i - 1 {
                    assert(s@[i + 1 + m] != '/');
                }
                assert(m == j as int - i - 1);
                assert(quote_part@ =~= rest.subrange(0, m));
                assert(rest.subrange(0, m) =~= s@.subrange(i + 1, i + 1 + m));
            } else {
                assert(j == n);
                assert(quote_part@ =~= rest);
            }
        }
        Asset { base: base_part.to_owned(), quote: quote_part.to_owned() }
    }
}

/// Index of the first occurrence of `c` in `s` at or after `from`,
/// or the length of `s` when there is none.
fn find_char_from(s: &str, from: usize, c: char) -> (r: usize)
    requires
        from <= s@.len(),
    ensures
        from <= r <= s@.len(),
        r < s@.len() ==> s@[r as int] == c,
        forall|j: int| from <= j < r ==> s@[j] != c,
{
    let n: usize = s.unicode_len();
    let mut i: usize = from;
    while i < n
        invariant
            from <= i <= n,
            n == s@.len(),
            forall|j: int| from <= j < i ==> s@[j] != c,
        decreases n - i,
    {
        if s.get_char(i) == c {
            return i;
        }
        i = i + 1;
    }
    n
}

/// Produces a copy of an asset that is equal to the original.
pub fn clone_asset(a: &Asset) -> (r: Asset)
    ensures
        r == *a,
{
    Asset { base: a.base.clone(), quote: a.quote.clone() }
}

/// An asset together with a held quantity (scaled by [`FRACTION_SCALE`])
/// and a unit price.
#[derive(Clone, Debug)]
pub struct AssetInfo {
    pub asset: Asset,
    pub quantity: u64,
    pub price: u64,
}

impl AssetInfo {
    /// Machine bounds under which every derived value fits the
    /// integer types used by this crate.
    pub open spec fn wf(&self) -> bool {
        self.quantity <= MAX_ASSET_QUANTITY && self.price <= MAX_ASSET_PRICE
    }

    /// Value of the held quantity at the unit price:
    /// `quantity * price / FRACTION_SCALE`, rounded down.
    pub open spec fn spec_total_value(&self) -> int {
        self.quantity * self.price / FRACTION_SCALE as int
    }

    pub fn new(asset: Asset, quantity: u64, price: u64) -> (r: Self)
        ensures
            r.asset == asset,
            r.quantity == quantity,
            r.price == price,
    {
        AssetInfo { asset, quantity, price }
    }

    /// Parses the asset from `"BASE/QUOTE"` notation; see [`Asset::from_str`].
    pub fn from_str(s: &str, quantity: u64, price: u64) -> (r: Self)
        requires
            has_char(s@, '/'),
        ensures
            r.quantity == quantity,
            r.price == price,
            r.asset.base@ == s@.subrange(0, first_char_at(s@, '/')),
    {
        AssetInfo { asset: Asset::from_str(s), quantity, price }
    }

    pub fn total_value(&self) -> (r: u64)
        requires
            self.wf(),
        ensures
            r == self.spec_total_value(),
    {
        proof {
            lemma_value_bound(self.quantity as int, self.price as int);
        }
        let wide: u128 = (self.quantity as u128) * (self.price as u128) / (FRACTION_SCALE as u128);
        wide as u64
    }

    pub fn update_price(&mut self, price: u64)
        ensures
            final(self).asset == old(self).asset,
            final(self).quantity == old(self).quantity,
            final(self).price == price,
    {
        self.price = price;
    }
}

/// The product of a bounded quantity and a bounded price, scaled down,
/// stays below `2^64`.
proof fn lemma_value_bound(q: int, p: int)
    requires
        0 <= q <= MAX_ASSET_QUANTITY,
        0 <= p <= MAX_ASSET_PRICE,
    ensures
        0 <= q * p <= 1_000_000_000_000_000_000_000int,
        0 <= q * p / (FRACTION_SCALE as int) <= 1_000_000_000_000_000,
{
    assert(q * p <= MAX_ASSET_QUANTITY * MAX_ASSET_PRICE) by (nonlinear_arith)
        requires
            0 <= q <= MAX_ASSET_QUANTITY,
            0 <= p <= MAX_ASSET_PRICE,
    ;
    assert(q * p >= 0) by (nonlinear_arith)
        requires
            0 <= q,
            0 <= p,
    ;
    assert(q * p / (FRACTION_SCALE as int) <= 1_000_000_000_000_000_000_000int / (
    FRACTION_SCALE as int)) by {
        vstd::arithmetic::div_mod::lemma_div_is_ordered(
            q * p,
            1_000_000_000_000_000_000_000int,
            FRACTION_SCALE as int,
        );
    }
    assert(q * p / (FRACTION_SCALE as int) >= 0) by {
        vstd::arithmetic::div_mod::lemma_div_pos_is_pos(q * p, FRACTION_SCALE as int);
    }
}

/// Sum of the per-asset values of a sequence of asset records.
pub open spec fn sum_asset_values(s: Seq<AssetInfo>) -> int
    decreases s.len(),
{
    if s.len() == 0 {
        0
    } else {
        sum_asset_values(s.drop_last()) + s.last().spec_total_value()
    }
}

/// Every asset value in a well-formed sequence is bounded, so the sum
/// grows at most linearly with the length.
proof fn lemma_sum_asset_values_bound(s: Seq<AssetInfo>)
    requires
        forall|i: int| 0 <= i < s.len() ==> (#[trigger] s[i]).wf(),
    ensures
        0 <= sum_asset_values(s) <= s.len() * 1_000_000_000_000_000,
    decreases s.len(),
{
    if s.len() == 0 {
    } else {
        lemma_sum_asset_values_bound(s.drop_last());
        lemma_value_bound(s.last().quantity as int, s.last().price as int);
        assert((s.len() - 1) * 1_000_000_000_000_000 + 1_000_000_000_000_000 == s.len()
            * 1_000_000_000_000_000) by (nonlinear_arith);
    }
}

/// An identified, ordered collection of asset holdings.
#[derive(Clone, Debug)]
pub struct Basket {
    pub id: u64,
    pub assets: Vec<AssetInfo>,
}

impl Basket {
    /// Machine bounds under which every derived value fits the
    /// integer types used by this crate.
    pub open spec fn wf(&self) -> bool {
        &&& self.assets@.len() <= MAX_BASKET_ASSETS
        &&& forall|i: int| 0 <= i < self.assets@.len() ==> (#[trigger] self.assets@[i]).wf()
    }

    /// Total value of the basket: the sum of its constituents' values.
    pub open spec fn spec_total_value(&self) -> int {
        sum_asset_values(self.assets@)
    }

    pub fn total_value(&self) -> (r: u64)
        requires
            self.wf(),
        ensures
            r == self.spec_total_value(),
    {
        let mut sum: u64 = 0;
        let n = self.assets.len();
        let mut i: usize = 0;
        while i < n
            invariant
                0 <= i <= n,
                n == self.assets@.len(),
                self.wf(),
                sum == sum_asset_values(self.assets@.subrange(0, i as int)),
                sum <= i * 1_000_000_000_000_000,
            decreases n - i,
        {
            proof {
                lemma_value_bound(self.assets@[i as int].quantity as int, self.assets@[i as int].price as int);
                assert(i * 1_000_000_000_000_000 + 1_000_000_000_000_000 == (i + 1)
                    * 1_000_000_000_000_000) by (nonlinear_arith);
                assert((i + 1) * 1_000_000_000_000_000 <= 128 * 1_000_000_000_000_000)
                    by (nonlinear_arith)
                    requires
                        0 <= i,
                        i + 1 <= 128,
                ;
                assert(self.assets@.subrange(0, i + 1).drop_last() =~= self.assets@.subrange(
                    0,
                    i as int,
                ));
                assert(self.assets@.subrange(0, i + 1).last() == self.assets@[i as int]);
            }
            sum = sum + self.assets[i].total_value();
            i = i + 1;
        }
        proof {
            assert(self.assets@.subrange(0, n as int) =~= self.assets@);
        }
        sum
    }

    /// Replaces the unit price of the first constituent holding the given
    /// asset, if any; all other constituents are unchanged.
    pub fn update_price(&mut self, asset: &Asset, new_price: u64)
        ensures
            final(self).id == old(self).id,
            final(self).assets@.len() == old(self).assets@.len(),
            forall|i: int|
                0 <= i < old(self).assets@.len() && !asset_same(
                    old(self).assets@[i].asset,
                    *asset,
                ) ==> final(self).assets@[i] == old(self).assets@[i],
            forall|i: int|
                0 <= i < old(self).assets@.len() && asset_same(old(self).assets@[i].asset, *asset)
                    && (exists|j: int|
                    0 <= j < i && asset_same(old(self).assets@[j].asset, *asset)) ==> final(self).assets@[i] == old(self).assets@[i],
            forall|i: int|
                0 <= i < old(self).assets@.len() && asset_same(old(self).assets@[i].asset, *asset)
                    && (forall|j: int|
                    0 <= j < i ==> !asset_same(old(self).assets@[j].asset, *asset)) ==> final(self).assets@[i] == (AssetInfo {
                    asset: old(self).assets@[i].asset,
                    quantity: old(self).assets@[i].quantity,
                    price: new_price,
                }),
    {
        let n = self.assets.len();
        let mut i: usize = 0;
        while i < n
            invariant
                0 <= i <= n,
                n == self.assets@.len(),
                self.id == old(self).id,
                self.assets@.len() == old(self).assets@.len(),
                forall|j: int| 0 <= j < n ==> self.assets@[j] == old(self).assets@[j],
                forall|j: int| 0 <= j < i ==> !asset_same(old(self).assets@[j].asset, *asset),
            decreases n - i,
        {
            if self.assets[i].asset == *asset {
                self.assets[i].price = new_price;
                return ;
            }
            i = i + 1;
        }
    }

    /// True when some constituent holds the same asset.
    pub fn is_asset_in_basket(&self, asset: &AssetInfo) -> (r: bool)
        ensures
            r == exists|i: int|
                0 <= i < self.assets@.len() && asset_same(
                    (#[trigger] self.assets@[i]).asset,
                    asset.asset,
                ),
    {
        let n = self.assets.len();
        let mut i: usize = 0;
        while i < n
            invariant
                0 <= i <= n,
                n == self.assets@.len(),
                forall|j: int|
                    0 <= j < i ==> !asset_same((#[trigger] self.assets@[j]).asset, asset.asset),
            decreases n - i,
        {
            if self.assets[i].asset == asset.asset {
                return true;
            }
            i = i + 1;
        }
        false
    }

    /// Quantity held of the given asset: the first matching constituent's
    /// quantity, or zero when the basket does not hold the asset.
    pub fn asset_amount_in_basket(&self, asset: &AssetInfo) -> (r: u64)
        ensures
            (forall|i: int|
                0 <= i < self.assets@.len() ==> !asset_same(
                    (#[trigger] self.assets@[i]).asset,
                    asset.asset,
                )) ==> r == 0,
            forall|i: int|
                0 <= i < self.assets@.len() && asset_same(
                    (#[trigger] self.assets@[i]).asset,
                    asset.asset,
                ) && (forall|j: int|
                    0 <= j < i ==> !asset_same((#[trigger] self.assets@[j]).asset, asset.asset))
                    ==> r == self.assets@[i].quantity,
    {
        let n = self.assets.len();
        let mut i: usize = 0;
        while i < n
            invariant
                0 <= i <= n,
                n == self.assets@.len(),
                forall|j: int|
                    0 <= j < i ==> !asset_same((#[trigger] self.assets@[j]).asset, asset.asset),
            decreases n - i,
        {
            if self.assets[i].asset == asset.asset {
                return self.assets[i].quantity;
            }
            i = i + 1;
        }
        0
    }

    /// Value held of the given asset: the first matching constituent's
    /// total value, or zero when the basket does not hold the asset.
    pub fn asset_value_in_basket(&self, asset: &AssetInfo) -> (r: u64)
        requires
            self.wf(),
        ensures
            (forall|i: int|
                0 <= i < self.assets@.len() ==> !asset_same(
                    (#[trigger] self.assets@[i]).asset,
                    asset.asset,
                )) ==> r == 0,
            forall|i: int|
                0 <= i < self.assets@.len() && asset_same(
                    (#[trigger] self.assets@[i]).asset,
                    asset.asset,
                ) && (forall|j: int|
                    0 <= j < i ==> !asset_same((#[trigger] self.assets@[j]).asset, asset.asset))
                    ==> r == self.assets@[i].spec_total_value(),
    {
        let n = self.assets.len();
        let mut i: usize = 0;
        while i < n
            invariant
                0 <= i <= n,
                n == self.assets@.len(),
                self.wf(),
                forall|j: int|
                    0 <= j < i ==> !asset_same((#[trigger] self.assets@[j]).asset, asset.asset),
            decreases n - i,
        {
            if self.assets[i].asset == asset.asset {
                return self.assets[i].total_value();
            }
            i = i + 1;
        }
        0
    }

    /// One `(asset, value)` pair per constituent, in basket order.
    pub fn assets_valuation(&self) -> (r: Vec<(Asset, u64)>)
        requires
            self.wf(),
        ensures
            r@.len() == self.assets@.len(),
            forall|i: int|
                0 <= i < r@.len() ==> (#[trigger] r@[i]).0 == self.assets@[i].asset && r@[i].1
                    == self.assets@[i].spec_total_value(),
    {
        let mut out: Vec<(Asset, u64)> = Vec::new();
        let n = self.assets.len();
        let mut i: usize = 0;
        while i < n
            invariant
                0 <= i <= n,
                n == self.assets@.len(),
                self.wf(),
                out@.len() == i,
                forall|j: int|
                    0 <= j < i ==> (#[trigger] out@[j]).0 == self.assets@[j].asset && out@[j].1
                        == self.assets@[j].spec_total_value(),
            decreases n - i,
        {
            let v = self.assets[i].total_value();
            out.push((clone_asset(&self.assets[i].asset), v));
            i = i + 1;
        }
        out
    }
}

/// Whether a bid is exclusive (at most one bundle per bidder) or
/// independently acceptable.
#[derive(Clone, Copy, Debug, PartialEq, Eq, Structural)]
pub enum BidType {
    XOR,
    OR,
}

/// An offer of `price` for a fraction of a basket. An absent fraction
/// means the whole basket. Bids are immutable once constructed.
#[derive(Clone, Debug)]
pub struct Bid {
    pub user: User,
    pub basket_id: u64,
    pub bid_type: BidType,
    pub price: u64,
    pub quantity: Option<u64>,
}

/// The fraction of the basket a bid asks for, scaled by
/// [`FRACTION_SCALE`]; an absent fraction means the whole basket.
pub open spec fn frac_of(b: Bid) -> int {
    match b.quantity {
        Some(q) => q as int,
        None => FRACTION_SCALE as int,
    }
}

/// A bid is valid when its bidder can afford it, its price is positive,
/// and its fraction, if present, lies in `(0, 1]`.
pub open spec fn spec_bid_valid(b: Bid) -> bool {
    &&& b.user.balance >= b.price
    &&& b.price > 0
    &&& match b.quantity {
        Some(q) => 0 < q <= FRACTION_SCALE,
        None => true,
    }
}

impl Bid {
    pub fn new(user: User, basket_id: u64, bid_type: BidType, price: u64, quantity: Option<u64>)
        -> (r: Self)
        ensures
            r == (Bid { user, basket_id, bid_type, price, quantity }),
    {
        Bid { user, basket_id, bid_type, price, quantity }
    }

    pub fn is_valid(&self) -> (r: bool)
        ensures
            r == spec_bid_valid(*self),
    {
        let quantity_ok = match self.quantity {
            Some(q) => 0 < q && q <= FRACTION_SCALE,
            None => true,
        };
        self.user.can_afford(self.price) && self.price > 0 && quantity_ok
    }

    /// The first basket whose id the bid names, if any.
    pub fn match_basket<'a>(&self, baskets: &'a Vec<Basket>) -> (r: Option<&'a Basket>)
        ensures
            match r {
                Some(b) => exists|i: int|
                    0 <= i < baskets@.len() && baskets@[i] == *b && b.id == self.basket_id
                        && forall|j: int| 0 <= j < i ==> baskets@[j].id != self.basket_id,
                None => forall|i: int|
                    0 <= i < baskets@.len() ==> (#[trigger] baskets@[i]).id != self.basket_id,
            },
    {
        let n = baskets.len();
        let mut i: usize = 0;
        while i < n
            invariant
                0 <= i <= n,
                n == baskets@.len(),
                forall|j: int| 0 <= j < i ==> (#[trigger] baskets@[j]).id != self.basket_id,
            decreases n - i,
        {
            if baskets[i].id == self.basket_id {
                return Some(&baskets[i]);
            }
            i = i + 1;
        }
        None
    }

    /// The bid's fraction of the basket's total value, rounded down.
    pub open spec fn spec_estimate_value(&self, basket: Basket) -> int {
        frac_of(*self) * basket.spec_total_value() / FRACTION_SCALE as int
    }

    pub fn estimate_value_of_bid(&self, basket: &Basket) -> (r: u64)
        requires
            basket.wf(),
            frac_of(*self) <= FRACTION_SCALE,
        ensures
            r == self.spec_estimate_value(*basket),
    {
        let basket_value = basket.total_value();
        let proportion: u64 = match self.quantity {
            Some(q) => q,
            None => FRACTION_SCALE,
        };
        proof {
            lemma_sum_asset_values_bound(basket.assets@);
            lemma_estimate_bound(proportion as int, basket.spec_total_value());
        }
        ((proportion as u128) * (basket_value as u128) / (FRACTION_SCALE as u128)) as u64
    }
}

/// A fraction of a bounded basket value stays below `2^64`.
proof fn lemma_estimate_bound(f: int, v: int)
    requires
        0 <= f,
        0 <= v <= 128 * 1_000_000_000_000_000,
    ensures
        0 <= f * v,
        0 <= f * v / (FRACTION_SCALE as int),
        f <= FRACTION_SCALE ==> f * v / (FRACTION_SCALE as int) <= v,
{
    assert(f * v >= 0) by (nonlinear_arith)
        requires
            0 <= f,
            0 <= v,
    ;
    vstd::arithmetic::div_mod::lemma_div_pos_is_pos(f * v, FRACTION_SCALE as int);
    if f <= FRACTION_SCALE {
        assert(f * v <= (FRACTION_SCALE as int) * v) by (nonlinear_arith)
            requires
                0 <= v,
                f <= FRACTION_SCALE,
        ;
        vstd::arithmetic::div_mod::lemma_div_is_ordered(
            f * v,
            (FRACTION_SCALE as int) * v,
            FRACTION_SCALE as int,
        );
        assert((FRACTION_SCALE as int) * v / (FRACTION_SCALE as int) == v) by {
            vstd::arithmetic::div_mod::lemma_div_multiples_vanish(v, FRACTION_SCALE as int);
        }
    }
}

impl PartialEq for Bid {
    fn eq(&self, other: &Self) -> (r: bool) {
        self.price == other.price
    }
}

impl vstd::std_specs::cmp::PartialEqSpecImpl for Bid {
    open spec fn obeys_eq_spec() -> bool {
        true
    }

    open spec fn eq_spec(&self, other: &Self) -> bool {
        self.price == other.price
    }
}

impl PartialOrd for Bid {
    fn partial_cmp(&self, other: &Self) -> (r: Option<core::cmp::Ordering>) {
        if self.price < other.price {
            Some(core::cmp::Ordering::Less)
        } else if self.price == other.price {
            Some(core::cmp::Ordering::Equal)
        } else {
            Some(core::cmp::Ordering::Greater)
        }
    }
}

impl vstd::std_specs::cmp::PartialOrdSpecImpl for Bid {
    open spec fn obeys_partial_cmp_spec() -> bool {
        true
    }

    open spec fn partial_cmp_spec(&self, other: &Self) -> Option<core::cmp::Ordering> {
        if self.price < other.price {
            Some(core::cmp::Ordering::Less)
        } else if self.price == other.price {
            Some(core::cmp::Ordering::Equal)
        } else {
            Some(core::cmp::Ordering::Greater)
        }
    }
}

/// Produces a copy of a bid that is equal to the original.
pub fn clone_bid(b: &Bid) -> (r: Bid)
    ensures
        r == *b,
{
    Bid {
        user: clone_user(&b.user),
        basket_id: b.basket_id,
        bid_type: b.bid_type,
        price: b.price,
        quantity: b.quantity,
    }
}

} // verus!
