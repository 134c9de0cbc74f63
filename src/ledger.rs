use vstd::prelude::*;
use crate::date::{Date, date_lt, month_index};
use crate::names::{NameBank, RECEIVING, SPENDING, NR_BUILT_IN_ACCOUNTS};

verus! {

/// What a transaction does. Fiat amounts and prices are in minor units
/// (hundredths); asset amounts are in the asset's smallest unit, and a price
/// is the fiat cost of one such unit.
#[derive(Clone, Copy, Debug, PartialEq, Eq, Structural)]
pub enum Action {
    /// Moves `amount` from account `from` to account `to`.
    Transfer { from: usize, to: usize, amount: i64 },
    /// Adds `amount` of `asset`, paid by `account` at `price` per unit.
    Trade { asset: usize, account: usize, amount: i64, price: i64 },
    /// Sets the latest known price of `asset`.
    PriceUpdate { asset: usize, price: i64 },
}

/// A dated transaction.
#[derive(Clone, Copy, Debug, PartialEq, Eq, Structural)]
pub struct Trans {
    pub date: Date,
    pub action: Action,
}

/// Balances indexed by id: fiat per account, holdings and latest price per asset.
pub struct State {
    pub accounts: Vec<i64>,
    pub asset_amounts: Vec<i64>,
    pub asset_prices: Vec<i64>,
}

/// The mathematical value of a `State`.
pub struct LedgerModel {
    pub accounts: Seq<int>,
    pub amounts: Seq<int>,
    pub prices: Seq<int>,
}

pub open spec fn ints_of(v: Seq<i64>) -> Seq<int> {
    v.map_values(|x: i64| x as int)
}

impl View for State {
    type V = LedgerModel;

    open spec fn view(&self) -> LedgerModel {
        LedgerModel {
            accounts: ints_of(self.accounts@),
            amounts: ints_of(self.asset_amounts@),
            prices: ints_of(self.asset_prices@),
        }
    }
}

pub open spec fn fits_i64(x: int) -> bool {
    i64::MIN <= x <= i64::MAX
}

/// The state after one action, in unbounded arithmetic.
pub open spec fn step(m: LedgerModel, a: Action) -> LedgerModel {
    match a {
        Action::Transfer { from, to, amount } => {
            let acc = m.accounts.update(from as int, m.accounts[from as int] - amount);
            LedgerModel { accounts: acc.update(to as int, acc[to as int] + amount), ..m }
        },
        Action::Trade { asset, account, amount, price } => LedgerModel {
            accounts: m.accounts.update(
                account as int,
                m.accounts[account as int] - amount * price,
            ),
            amounts: m.amounts.update(asset as int, m.amounts[asset as int] + amount),
            ..m
        },
        Action::PriceUpdate { asset, price } => LedgerModel {
            prices: m.prices.update(asset as int, price as int),
            ..m
        },
    }
}

/// The ids of `a` are known to `m`, and every value it changes stays in range.
#[verifier::opaque]
pub open spec fn applicable(m: LedgerModel, a: Action) -> bool {
    match a {
        Action::Transfer { from, to, amount } => {
            &&& from < m.accounts.len()
            &&& to < m.accounts.len()
            &&& fits_i64(m.accounts[from as int] - amount)
            &&& fits_i64(step(m, a).accounts[to as int])
        },
        Action::Trade { asset, account, amount, price } => {
            &&& asset < m.amounts.len()
            &&& account < m.accounts.len()
            &&& fits_i64(m.amounts[asset as int] + amount)
            &&& fits_i64(m.accounts[account as int] - amount * price)
        },
        Action::PriceUpdate { asset, price } => asset < m.prices.len(),
    }
}

/// The transaction's date lies in the half-open range `[from, to)`; a missing
/// bound does not restrict.
pub open spec fn selected(t: Trans, from: Option<Date>, to: Option<Date>) -> bool {
    &&& (match from {
        Some(f) => !date_lt(t.date, f),
        None => true,
    })
    &&& (match to {
        Some(u) => date_lt(t.date, u),
        None => true,
    })
}

/// The state after replaying the selected transactions of `ts` in order.
pub open spec fn replay(m: LedgerModel, ts: Seq<Trans>, from: Option<Date>, to: Option<Date>) -> LedgerModel
    decreases ts.len(),
{
    if ts.len() == 0 {
        m
    } else {
        let p = replay(m, ts.drop_last(), from, to);
        if selected(ts.last(), from, to) {
            step(p, ts.last().action)
        } else {
            p
        }
    }
}

/// Every selected transaction of `ts` before index `n` could be applied.
pub open spec fn replayable(m: LedgerModel, ts: Seq<Trans>, from: Option<Date>, to: Option<Date>, n: int) -> bool {
    forall|k: int|
        0 <= k < n && #[trigger] selected(ts[k], from, to) ==> applicable(
            replay(m, ts.take(k), from, to),
            ts[k].action,
        )
}

proof fn lemma_product_fits(a: i64, b: i64)
    ensures
        i128::MIN <= (a as int) * (b as int) <= i128::MAX,
{
    let x = a as int;
    let y = b as int;
    assert(-0x8000_0000_0000_0000 <= x <= 0x7fff_ffff_ffff_ffff);
    assert(-0x8000_0000_0000_0000 <= y <= 0x7fff_ffff_ffff_ffff);
    assert(x * y <= 0x4000_0000_0000_0000_0000_0000_0000_0000) by (nonlinear_arith)
        requires
            -0x8000_0000_0000_0000 <= x <= 0x7fff_ffff_ffff_ffff,
            -0x8000_0000_0000_0000 <= y <= 0x7fff_ffff_ffff_ffff,
    ;
    assert(x * y >= -0x4000_0000_0000_0000_0000_0000_0000_0000) by (nonlinear_arith)
        requires
            -0x8000_0000_0000_0000 <= x <= 0x7fff_ffff_ffff_ffff,
            -0x8000_0000_0000_0000 <= y <= 0x7fff_ffff_ffff_ffff,
    ;
}

pub(crate) proof fn lemma_replayable_extend(m: LedgerModel, ts: Seq<Trans>, from: Option<Date>, to: Option<Date>, i: int)
    requires
        0 <= i < ts.len(),
        replayable(m, ts, from, to, i),
        selected(ts[i], from, to) ==> applicable(replay(m, ts.take(i), from, to), ts[i].action),
    ensures
        replayable(m, ts, from, to, i + 1),
{
}

impl State {
    /// All three tables cover the same ids, the built-ins among them.
    pub open spec fn wf(&self) -> bool {
        &&& self.accounts@.len() == self.asset_amounts@.len()
        &&& self.accounts@.len() == self.asset_prices@.len()
        &&& self.accounts@.len() >= NR_BUILT_IN_ACCOUNTS
    }

    /// A zeroed state with one entry per id of `bank`.
    pub fn new(bank: &NameBank) -> (r: State)
        requires
            bank.wf(),
        ensures
            r.wf(),
            r@.accounts.len() == bank@.len(),
            forall|i: int| 0 <= i < bank@.len() ==> #[trigger] r@.accounts[i] == 0 && r@.amounts[i]
                == 0 && r@.prices[i] == 0,
    {
        let n = bank.len();
        let mut accounts: Vec<i64> = Vec::new();
        let mut asset_amounts: Vec<i64> = Vec::new();
        let mut asset_prices: Vec<i64> = Vec::new();
        let mut i: usize = 0;
        while i < n
            invariant
                0 <= i <= n,
                accounts@.len() == i && asset_amounts@.len() == i && asset_prices@.len() == i,
                forall|k: int| 0 <= k < i ==> accounts@[k] == 0 && asset_amounts@[k] == 0
                    && asset_prices@[k] == 0,
            decreases n - i,
        {
            accounts.push(0);
            asset_amounts.push(0);
            asset_prices.push(0);
            i = i + 1;
        }
        State { accounts, asset_amounts, asset_prices }
    }

    /// Whether `a` can be applied to this state.
    pub fn can_apply(&self, a: &Action) -> (r: bool)
        requires
            self.wf(),
        ensures
            r == applicable(self@, *a),
    {
        reveal(applicable);
        match *a {
            Action::Transfer { from, to, amount } => {
                if from >= self.accounts.len() || to >= self.accounts.len() {
                    return false;
                }
                let f = self.accounts[from] as i128 - amount as i128;
                if f < i64::MIN as i128 || f > i64::MAX as i128 {
                    return false;
                }
                let base: i128 = if to == from { f } else { self.accounts[to] as i128 };
                let t = base + amount as i128;
                t >= i64::MIN as i128 && t <= i64::MAX as i128
            },
            Action::Trade { asset, account, amount, price } => {
                if asset >= self.asset_amounts.len() || account >= self.accounts.len() {
                    return false;
                }
                let h = self.asset_amounts[asset] as i128 + amount as i128;
                if h < i64::MIN as i128 || h > i64::MAX as i128 {
                    return false;
                }
                proof {
                    lemma_product_fits(amount, price);
                }
                let cost = amount as i128 * price as i128;
                let limit_lo = self.accounts[account] as i128 - i64::MAX as i128;
                let limit_hi = self.accounts[account] as i128 - i64::MIN as i128;
                limit_lo <= cost && cost <= limit_hi
            },
            Action::PriceUpdate { asset, price } => asset < self.asset_prices.len(),
        }
    }

    /// Applies one action.
    pub fn apply(&mut self, a: &Action)
        requires
            old(self).wf(),
            applicable(old(self)@, *a),
        ensures
            final(self).wf(),
            final(self)@ == step(old(self)@, *a),
    {
        reveal(applicable);
        match *a {
            Action::Transfer { from, to, amount } => {
                let f = self.accounts[from] - amount;
                self.accounts.set(from, f);
                let t = self.accounts[to] + amount;
                self.accounts.set(to, t);
            },
            Action::Trade { asset, account, amount, price } => {
                let h = self.asset_amounts[asset] + amount;
                self.asset_amounts.set(asset, h);
                proof {
                    lemma_product_fits(amount, price);
                }
                let cost = amount as i128 * price as i128;
                let b = (self.accounts[account] as i128 - cost) as i64;
                self.accounts.set(account, b);
            },
            Action::PriceUpdate { asset, price } => {
                self.asset_prices.set(asset, price);
            },
        }
        assert(self@.accounts =~= step(old(self)@, *a).accounts);
        assert(self@.amounts =~= step(old(self)@, *a).amounts);
        assert(self@.prices =~= step(old(self)@, *a).prices);
    }
}

/// Replays the transactions of `ts` whose date lies in `[from, to)`, in order.
/// Stops with `Err(i)` before the first selected transaction `i` that names an
/// unknown id or would take a value out of range; the state then holds the
/// replay of the transactions before `i`.
pub fn update(ts: &[Trans], state: &mut State, from: Option<Date>, to: Option<Date>) -> (r: Result<(), usize>)
    requires
        old(state).wf(),
    ensures
        final(state).wf(),
        match r {
            Ok(_) => {
                &&& replayable(old(state)@, ts@, from, to, ts@.len() as int)
                &&& final(state)@ == replay(old(state)@, ts@, from, to)
            },
            Err(n) => {
                &&& n < ts@.len()
                &&& replayable(old(state)@, ts@, from, to, n as int)
                &&& selected(ts@[n as int], from, to)
                &&& !applicable(replay(old(state)@, ts@.take(n as int), from, to), ts@[n as int].action)
                &&& final(state)@ == replay(old(state)@, ts@.take(n as int), from, to)
            },
        },
{
    let mut i: usize = 0;
    while i < ts.len()
        invariant
            0 <= i <= ts@.len(),
            state.wf(),
            replayable(old(state)@, ts@, from, to, i as int),
            state@ == replay(old(state)@, ts@.take(i as int), from, to),
        decreases ts@.len() - i,
    {
        let t = ts[i];
        assert(ts@.take(i + 1).drop_last() =~= ts@.take(i as int));
        let in_from = match from {
            Some(f) => !t.date.is_before(&f),
            None => true,
        };
        let in_to = match to {
            Some(u) => t.date.is_before(&u),
            None => true,
        };
        if in_from && in_to {
            if !state.can_apply(&t.action) {
                return Err(i);
            }
            state.apply(&t.action);
        }
        i = i + 1;
    }
    assert(ts@.take(ts@.len() as int) =~= ts@);
    Ok(())
}

/// Sum of a sequence of balances.
pub open spec fn total(s: Seq<int>) -> int
    decreases s.len(),
{
    if s.len() == 0 {
        0
    } else {
        total(s.drop_last()) + s.last()
    }
}

/// Sum of the balances of the accounts that are not built-in.
pub open spec fn user_total(accounts: Seq<int>) -> int {
    total(accounts.skip(NR_BUILT_IN_ACCOUNTS as int))
}

proof fn lemma_total_update(s: Seq<int>, i: int, v: int)
    requires
        0 <= i < s.len(),
    ensures
        total(s.update(i, v)) == total(s) - s[i] + v,
    decreases s.len(),
{
    let u = s.update(i, v);
    if i < s.len() - 1 {
        assert(u.drop_last() =~= s.drop_last().update(i, v));
        lemma_total_update(s.drop_last(), i, v);
    } else {
        assert(u.drop_last() =~= s.drop_last());
    }
}

proof fn lemma_user_total_update(s: Seq<int>, i: int, v: int)
    requires
        NR_BUILT_IN_ACCOUNTS <= i < s.len(),
    ensures
        user_total(s.update(i, v)) == user_total(s) - s[i] + v,
{
    let k = NR_BUILT_IN_ACCOUNTS as int;
    assert(s.update(i, v).skip(k) =~= s.skip(k).update(i - k, v));
    lemma_total_update(s.skip(k), i - k, v);
}

/// A transfer of `amount` from `from` to another account `to` adds `amount`
/// to `to`, takes it from `from`, leaves every other balance and the sum of
/// all balances as they were, and, between two accounts that are not
/// built-in, leaves the sum of those accounts as it was.
pub proof fn lemma_transfer(m: LedgerModel, from: usize, to: usize, amount: i64)
    requires
        from < m.accounts.len(),
        to < m.accounts.len(),
        from != to,
    ensures
        ({
            let n = step(m, Action::Transfer { from, to, amount });
            &&& n.accounts.len() == m.accounts.len()
            &&& n.accounts[to as int] == m.accounts[to as int] + amount
            &&& n.accounts[from as int] == m.accounts[from as int] - amount
            &&& forall|i: int| 0 <= i < m.accounts.len() && i != from && i != to
                ==> #[trigger] n.accounts[i] == m.accounts[i]
            &&& total(n.accounts) == total(m.accounts)
            &&& (from >= NR_BUILT_IN_ACCOUNTS && to >= NR_BUILT_IN_ACCOUNTS) ==> user_total(n.accounts)
                == user_total(m.accounts)
            &&& n.amounts == m.amounts
            &&& n.prices == m.prices
        }),
{
    let a1 = m.accounts.update(from as int, m.accounts[from as int] - amount);
    lemma_total_update(m.accounts, from as int, m.accounts[from as int] - amount);
    lemma_total_update(a1, to as int, a1[to as int] + amount);
    if from >= NR_BUILT_IN_ACCOUNTS && to >= NR_BUILT_IN_ACCOUNTS {
        lemma_user_total_update(m.accounts, from as int, m.accounts[from as int] - amount);
        lemma_user_total_update(a1, to as int, a1[to as int] + amount);
    }
}

/// Replaying the same transactions with the same bounds from equal states
/// gives equal states.
pub proof fn lemma_replay_deterministic(
    a: LedgerModel,
    b: LedgerModel,
    ts: Seq<Trans>,
    from: Option<Date>,
    to: Option<Date>,
)
    requires
        a == b,
    ensures
        replay(a, ts, from, to) == replay(b, ts, from, to),
{
}

/// Every id that `a` names is below `n`.
pub open spec fn ids_below(a: Action, n: int) -> bool {
    match a {
        Action::Transfer { from, to, .. } => from < n && to < n,
        Action::Trade { asset, account, .. } => asset < n && account < n,
        Action::PriceUpdate { asset, .. } => asset < n,
    }
}

/// All three tables of `m` have `n` entries.
pub open spec fn sized(m: LedgerModel, n: int) -> bool {
    m.accounts.len() == n && m.amounts.len() == n && m.prices.len() == n
}

/// Replaying transactions that name known ids keeps the size of the tables.
pub proof fn lemma_replay_sized(m: LedgerModel, ts: Seq<Trans>, from: Option<Date>, to: Option<Date>, n: int)
    requires
        sized(m, n),
        forall|i: int| 0 <= i < ts.len() ==> ids_below(#[trigger] ts[i].action, n),
    ensures
        sized(replay(m, ts, from, to), n),
    decreases ts.len(),
{
    if ts.len() > 0 {
        let p = ts.drop_last();
        assert forall|i: int| 0 <= i < p.len() implies ids_below(#[trigger] p[i].action, n) by {
            assert(p[i] == ts[i]);
        }
        lemma_replay_sized(m, p, from, to, n);
        assert(ids_below(ts[ts.len() - 1].action, n));
    }
}

/// The asset `asset` is bought or sold by no transaction of `ts`.
pub open spec fn never_traded(ts: Seq<Trans>, asset: usize) -> bool {
    forall|i: int| 0 <= i < ts.len() ==> !(#[trigger] ts[i].action matches Action::Trade { asset: a, .. } && a == asset)
}

/// An asset that no transaction trades keeps a zero holding through any
/// replay, price updates included, so the worth of the holding is zero.
pub proof fn lemma_untraded_asset(m: LedgerModel, ts: Seq<Trans>, from: Option<Date>, to: Option<Date>, asset: usize)
    requires
        sized(m, m.amounts.len() as int),
        forall|i: int| 0 <= i < ts.len() ==> ids_below(#[trigger] ts[i].action, m.amounts.len() as int),
        asset < m.amounts.len(),
        m.amounts[asset as int] == 0,
        never_traded(ts, asset),
    ensures
        replay(m, ts, from, to).amounts.len() == m.amounts.len(),
        replay(m, ts, from, to).amounts[asset as int] == 0,
        replay(m, ts, from, to).amounts[asset as int] * replay(m, ts, from, to).prices[asset as int] == 0,
    decreases ts.len(),
{
    if ts.len() > 0 {
        let p = ts.drop_last();
        assert(never_traded(p, asset)) by {
            assert forall|i: int| 0 <= i < p.len() implies !(#[trigger] p[i].action matches Action::Trade { asset: a, .. } && a == asset) by {
                assert(p[i] == ts[i]);
            }
        }
        assert forall|i: int| 0 <= i < p.len() implies ids_below(#[trigger] p[i].action, m.amounts.len() as int) by {
            assert(p[i] == ts[i]);
        }
        lemma_untraded_asset(m, p, from, to, asset);
        lemma_replay_sized(m, p, from, to, m.amounts.len() as int);
        assert(ts[ts.len() - 1] == ts.last());
        assert(ids_below(ts[ts.len() - 1].action, m.amounts.len() as int));
    }
}

} // verus!
