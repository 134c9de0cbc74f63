use vstd::prelude::*;
use vstd::string::StringSliceAdditionalSpecFns;
use crate::date::Date;
use crate::ledger::{Action, Trans};
use crate::names::{NameBank, registered};

verus! {

// Line grammar. Tokens are separated by ASCII white space.
//   (no token), or a first token starting with `#`  -> nothing
//   YYYY-MM-DD                                     -> sets the date cursor
//   t FROM TO AMOUNT [TO AMOUNT]...                -> one transfer per leg
//   b ASSET AMOUNT PRICE ACCOUNT                   -> one trade
//   p ASSET PRICE                                  -> one price update
// Numbers are integers of at most 18 digits with an optional leading `-`;
// fiat amounts and prices are in minor units. Any other line is malformed
// and has no effect.

pub open spec fn is_space(b: u8) -> bool {
    b == 32 || b == 9 || b == 10 || b == 13
}

pub open spec fn is_digit(b: u8) -> bool {
    48 <= b <= 57
}

/// Left-to-right scan of `s`: the finished tokens and the token in progress.
pub open spec fn scan(s: Seq<u8>) -> (Seq<Seq<u8>>, Seq<u8>)
    decreases s.len(),
{
    if s.len() == 0 {
        (Seq::empty(), Seq::empty())
    } else {
        let (done, cur) = scan(s.drop_last());
        if is_space(s.last()) {
            if cur.len() > 0 {
                (done.push(cur), Seq::empty())
            } else {
                (done, cur)
            }
        } else {
            (done, cur.push(s.last()))
        }
    }
}

/// The white-space separated tokens of `s`, in order.
pub open spec fn tokens(s: Seq<u8>) -> Seq<Seq<u8>> {
    let (done, cur) = scan(s);
    if cur.len() > 0 {
        done.push(cur)
    } else {
        done
    }
}

pub open spec fn digits_value(s: Seq<u8>) -> int
    decreases s.len(),
{
    if s.len() == 0 {
        0
    } else {
        digits_value(s.drop_last()) * 10 + (s.last() - 48)
    }
}

pub open spec fn all_digits(s: Seq<u8>) -> bool {
    forall|i: int| 0 <= i < s.len() ==> is_digit(#[trigger] s[i])
}

/// The value of an integer token: an optional `-`, then 1 to 18 digits.
pub open spec fn int_token(t: Seq<u8>) -> Option<int> {
    if t.len() > 0 && t[0] == 45 {
        let d = t.skip(1);
        if 1 <= d.len() <= 18 && all_digits(d) {
            Some(-digits_value(d))
        } else {
            None
        }
    } else if 1 <= t.len() <= 18 && all_digits(t) {
        Some(digits_value(t))
    } else {
        None
    }
}

/// The date of a `YYYY-MM-DD` token with `1 <= MM <= 12` and `1 <= DD <= 31`.
pub open spec fn date_token(t: Seq<u8>) -> Option<Date> {
    if t.len() == 10 && t[4] == 45 && t[7] == 45 && all_digits(t.take(4)) && all_digits(
        t.subrange(5, 7),
    ) && all_digits(t.subrange(8, 10)) {
        let y = digits_value(t.take(4));
        let m = digits_value(t.subrange(5, 7));
        let d = digits_value(t.subrange(8, 10));
        if 1 <= m <= 12 && 1 <= d <= 31 {
            Some(Date { year: y as u32, month: m as u32, day: d as u32 })
        } else {
            None
        }
    } else {
        None
    }
}

/// What a line means, before names are given ids.
pub enum Entry {
    Nothing,
    SetDate(Date),
    /// From one account to each leg's account, with the leg's amount.
    Transfers(Seq<u8>, Seq<(Seq<u8>, int)>),
    /// Asset, amount, price, paying account.
    Trade(Seq<u8>, int, int, Seq<u8>),
    /// Asset, price.
    Price(Seq<u8>, int),
}

pub open spec fn is_word(t: Seq<u8>, c: u8) -> bool {
    t.len() == 1 && t[0] == c
}

/// The legs of a transfer line: its tokens after `t FROM`, taken in pairs.
pub open spec fn legs(toks: Seq<Seq<u8>>) -> Seq<(Seq<u8>, int)> {
    Seq::new(
        ((toks.len() - 2) / 2) as nat,
        |j: int| (toks[2 + 2 * j], int_token(toks[3 + 2 * j]).unwrap()),
    )
}

pub open spec fn legs_ok(toks: Seq<Seq<u8>>) -> bool {
    &&& toks.len() >= 4
    &&& toks.len() % 2 == 0
    &&& forall|j: int| 0 <= j < (toks.len() - 2) / 2 ==> (#[trigger] int_token(toks[3 + 2 * j])) is Some
}

/// The meaning of a line's tokens.
pub open spec fn entry_of(toks: Seq<Seq<u8>>) -> Entry {
    if toks.len() == 0 || (toks[0].len() > 0 && toks[0][0] == 35) {
        Entry::Nothing
    } else if toks.len() == 1 && date_token(toks[0]) is Some {
        Entry::SetDate(date_token(toks[0]).unwrap())
    } else if is_word(toks[0], 116) && legs_ok(toks) {
        Entry::Transfers(toks[1], legs(toks))
    } else if is_word(toks[0], 98) && toks.len() == 5 && int_token(toks[2]) is Some && int_token(
        toks[3],
    ) is Some {
        Entry::Trade(toks[1], int_token(toks[2]).unwrap(), int_token(toks[3]).unwrap(), toks[4])
    } else if is_word(toks[0], 112) && toks.len() == 3 && int_token(toks[2]) is Some {
        Entry::Price(toks[1], int_token(toks[2]).unwrap())
    } else {
        Entry::Nothing
    }
}

/// The names a line registers, in order.
pub open spec fn names_of(e: Entry) -> Seq<Seq<u8>> {
    match e {
        Entry::Transfers(from, ls) => seq![from] + ls.map_values(|l: (Seq<u8>, int)| l.0),
        Entry::Trade(asset, _, _, account) => seq![asset, account],
        Entry::Price(asset, _) => seq![asset],
        _ => Seq::empty(),
    }
}

/// The names after registering each of `list` in order.
pub open spec fn register_all(names: Seq<Seq<u8>>, list: Seq<Seq<u8>>) -> Seq<Seq<u8>>
    decreases list.len(),
{
    if list.len() == 0 {
        names
    } else {
        registered(register_all(names, list.drop_last()), list.last())
    }
}

pub open spec fn views(v: Seq<Vec<u8>>) -> Seq<Seq<u8>> {
    v.map_values(|x: Vec<u8>| x@)
}

/// Splits `s` into its white-space separated tokens.
pub fn split_tokens(s: &[u8]) -> (r: Vec<Vec<u8>>)
    ensures
        views(r@) == tokens(s@),
{
    let mut done: Vec<Vec<u8>> = Vec::new();
    let mut cur: Vec<u8> = Vec::new();
    let mut i: usize = 0;
    while i < s.len()
        invariant
            0 <= i <= s@.len(),
            (views(done@), cur@) == scan(s@.take(i as int)),
        decreases s@.len() - i,
    {
        let b = s[i];
        assert(s@.take(i + 1).drop_last() =~= s@.take(i as int));
        if b == 32 || b == 9 || b == 10 || b == 13 {
            if cur.len() > 0 {
                let ghost d0 = done@;
                done.push(cur);
                assert(views(done@) =~= views(d0).push(cur@));
                cur = Vec::new();
                assert(cur@ =~= Seq::<u8>::empty());
            }
        } else {
            cur.push(b);
        }
        i = i + 1;
    }
    assert(s@.take(s@.len() as int) =~= s@);
    if cur.len() > 0 {
        let ghost d0 = done@;
        done.push(cur);
        assert(views(done@) =~= views(d0).push(cur@));
    }
    done
}

pub open spec fn pow10(n: nat) -> int
    decreases n,
{
    if n == 0 {
        1
    } else {
        10 * pow10((n - 1) as nat)
    }
}

/// The value of a run of digits, when there are 1 to 18 of them.
fn digits(t: &[u8], lo: usize, hi: usize) -> (r: Option<i64>)
    requires
        lo <= hi <= t@.len(),
    ensures
        match r {
            Some(v) => 1 <= hi - lo <= 18 && all_digits(t@.subrange(lo as int, hi as int)) && v
                == digits_value(t@.subrange(lo as int, hi as int)) && v >= 0,
            None => !(1 <= hi - lo <= 18 && all_digits(t@.subrange(lo as int, hi as int))),
        },
{
    if hi - lo < 1 || hi - lo > 18 {
        return None;
    }
    let mut acc: i64 = 0;
    let mut i: usize = lo;
    proof {
        lemma_pow10_mono(0, 18);
        assert(t@.subrange(lo as int, lo as int) =~= Seq::<u8>::empty());
    }
    while i < hi
        invariant
            lo <= i <= hi <= t@.len(),
            hi - lo <= 18,
            all_digits(t@.subrange(lo as int, i as int)),
            acc == digits_value(t@.subrange(lo as int, i as int)),
            0 <= acc < pow10((i - lo) as nat),
            pow10((i - lo) as nat) <= pow10(18),
        decreases hi - i,
    {
        let b = t[i];
        if b < 48 || b > 57 {
            assert(!all_digits(t@.subrange(lo as int, hi as int))) by {
                assert(t@.subrange(lo as int, hi as int)[i - lo] == b);
            }
            return None;
        }
        let ghost sub = t@.subrange(lo as int, i + 1);
        assert(sub.drop_last() =~= t@.subrange(lo as int, i as int));
        proof {
            reveal_with_fuel(pow10, 19);
            assert(pow10(18) == 1_000_000_000_000_000_000);
            lemma_pow10_mono((i + 1 - lo) as nat, 18);
        }
        acc = acc * 10 + (b - 48) as i64;
        i = i + 1;
    }
    Some(acc)
}

proof fn lemma_pow10_mono(a: nat, b: nat)
    requires
        a <= b,
    ensures
        pow10(a) <= pow10(b),
        pow10(a) >= 1,
    decreases b,
{
    if a < b {
        lemma_pow10_mono(a, (b - 1) as nat);
    } else if a > 0 {
        lemma_pow10_mono((a - 1) as nat, (a - 1) as nat);
    }
}

/// The value of an integer token.
pub fn parse_int(t: &[u8]) -> (r: Option<i64>)
    ensures
        match r {
            Some(v) => int_token(t@) == Some(v as int),
            None => int_token(t@) is None,
        },
{
    if t.len() > 0 && t[0] == 45 {
        assert(t@.skip(1) =~= t@.subrange(1, t@.len() as int));
        match digits(t, 1, t.len()) {
            Some(v) => Some(-v),
            None => None,
        }
    } else {
        assert(t@ =~= t@.subrange(0, t@.len() as int));
        digits(t, 0, t.len())
    }
}

/// The date of a `YYYY-MM-DD` token.
pub fn parse_date(t: &[u8]) -> (r: Option<Date>)
    ensures
        r == date_token(t@),
{
    if t.len() != 10 || t[4] != 45 || t[7] != 45 {
        return None;
    }
    assert(t@.take(4) =~= t@.subrange(0, 4));
    let y = digits(t, 0, 4);
    let m = digits(t, 5, 7);
    let d = digits(t, 8, 10);
    match (y, m, d) {
        (Some(y), Some(m), Some(d)) => {
            if 1 <= m && m <= 12 && 1 <= d && d <= 31 {
                proof {
                    lemma_pow10_mono(4, 4);
                    reveal_with_fuel(pow10, 5);
                    assert(pow10(4) == 10000);
                }
                Some(Date { year: y as u32, month: m as u32, day: d as u32 })
            } else {
                None
            }
        },
        _ => None,
    }
}

/// `r` holds the transactions of entry `e` at date `d`, with ids given by `ns`.
pub open spec fn line_result(r: Seq<Trans>, e: Entry, ns: Seq<Seq<u8>>, d: Date) -> bool {
    match e {
        Entry::Transfers(from, ls) => {
            &&& r.len() == ls.len()
            &&& forall|j: int| 0 <= j < r.len() ==> #[trigger] transfer_leg(r[j], from, ls[j], ns, d)
        },
        Entry::Trade(asset, amount, price, account) => {
            &&& r.len() == 1
            &&& r[0].date == d
            &&& r[0].action matches Action::Trade { asset: x, account: y, amount: a, price: p }
                && x < ns.len() && ns[x as int] == asset && y < ns.len() && ns[y as int] == account
                && a == amount && p == price
        },
        Entry::Price(asset, price) => {
            &&& r.len() == 1
            &&& r[0].date == d
            &&& r[0].action matches Action::PriceUpdate { asset: x, price: p } && x < ns.len()
                && ns[x as int] == asset && p == price
        },
        _ => r.len() == 0,
    }
}

/// `t` is the transfer of leg `l` from `from`, at date `d`.
pub open spec fn transfer_leg(t: Trans, from: Seq<u8>, l: (Seq<u8>, int), ns: Seq<Seq<u8>>, d: Date) -> bool {
    &&& t.date == d
    &&& t.action matches Action::Transfer { from: f, to: x, amount: a } && f < ns.len() && ns[f as int]
        == from && x < ns.len() && ns[x as int] == l.0 && a == l.1
}

proof fn lemma_scan_len(s: Seq<u8>)
    ensures
        scan(s).0.len() + scan(s).1.len() <= s.len(),
        tokens(s).len() <= s.len(),
        forall|i: int| 0 <= i < tokens(s).len() ==> #[trigger] tokens(s)[i].len() > 0,
    decreases s.len(),
{
    if s.len() > 0 {
        lemma_scan_len(s.drop_last());
        let (done, cur) = scan(s.drop_last());
        assert(forall|i: int| 0 <= i < done.len() ==> #[trigger] done[i].len() > 0) by {
            assert forall|i: int| 0 <= i < done.len() implies #[trigger] done[i].len() > 0 by {
                if cur.len() > 0 {
                    assert(tokens(s.drop_last())[i] == done[i]);
                } else {
                    assert(tokens(s.drop_last())[i] == done[i]);
                }
            }
        }
    }
}

/// Parses one ledger line. A date line moves `date`; an entry registers the
/// names it uses, in order, and yields its transactions at `date`; any other
/// line, blank lines and comments included, yields nothing and changes nothing.
pub fn parse_line(line: &str, names: &mut NameBank, date: &mut Date) -> (r: Vec<Trans>)
    requires
        old(names).wf(),
        old(names)@.len() + line.spec_bytes().len() < usize::MAX,
    ensures
        final(names).wf(),
        ({
            let e = entry_of(tokens(line.spec_bytes()));
            &&& final(names)@ == register_all(old(names)@, names_of(e))
            &&& *final(date) == (match e {
                Entry::SetDate(d) => d,
                _ => *old(date),
            })
            &&& line_result(r@, e, final(names)@, *old(date))
        }),
{
    let bytes = line.as_bytes();
    let toks = split_tokens(bytes);
    proof {
        lemma_scan_len(bytes@);
    }
    let ghost tk = views(toks@);
    assert(tk.len() == toks@.len());
    let ghost e = entry_of(tk);
    let mut out: Vec<Trans> = Vec::new();
    if toks.len() == 0 || (toks[0].len() > 0 && toks[0][0] == 35) {
        assert(names_of(e) =~= Seq::<Seq<u8>>::empty());
        return out;
    }
    assert(toks@[0]@ == tk[0]);
    assert(toks[0]@.len() > 0);
    if toks.len() == 1 {
        if let Some(d) = parse_date(toks[0].as_slice()) {
            *date = d;
            assert(names_of(e) =~= Seq::<Seq<u8>>::empty());
            return out;
        }
    }
    let w0 = toks[0].len() == 1;
    if w0 && toks[0][0] == 116 {
        if let Some(amts) = leg_amounts(&toks) {
            return emit_transfers(&toks, &amts, names, *date);
        }
    } else if w0 && toks[0][0] == 98 && toks.len() == 5 {
        let a = parse_int(toks[2].as_slice());
        let p = parse_int(toks[3].as_slice());
        if let (Some(a), Some(p)) = (a, p) {
            assert(tk[1] == toks@[1]@ && tk[2] == toks@[2]@ && tk[3] == toks@[3]@ && tk[4] == toks@[4]@);
            assert(e == Entry::Trade(tk[1], a as int, p as int, tk[4]));
            let ghost n0 = names@;
            let x = names.register_bytes(toks[1].as_slice());
            let ghost n1 = names@;
            let y = names.register_bytes(toks[4].as_slice());
            assert(names_of(e) =~= seq![tk[1], tk[4]]);
            assert(names_of(e).drop_last() =~= seq![tk[1]]);
            assert(seq![tk[1]].drop_last() =~= Seq::<Seq<u8>>::empty());
            assert(register_all(n0, Seq::<Seq<u8>>::empty()) == n0);
            assert(seq![tk[1]].last() == tk[1]);
            assert(seq![tk[1], tk[4]].last() == tk[4]);
            assert(register_all(n0, seq![tk[1]]) == n1);
            assert(register_all(n0, seq![tk[1], tk[4]]) == names@);
            out.push(Trans { date: *date, action: Action::Trade { asset: x, account: y, amount: a, price: p } });
            return out;
        }
    } else if w0 && toks[0][0] == 112 && toks.len() == 3 {
        if let Some(p) = parse_int(toks[2].as_slice()) {
            assert(tk[1] == toks@[1]@ && tk[2] == toks@[2]@);
            assert(e == Entry::Price(tk[1], p as int));
            let ghost n0 = names@;
            let x = names.register_bytes(toks[1].as_slice());
            assert(names_of(e) =~= seq![tk[1]]);
            assert(seq![tk[1]].drop_last() =~= Seq::<Seq<u8>>::empty());
            assert(register_all(n0, Seq::<Seq<u8>>::empty()) == n0);
            assert(seq![tk[1]].last() == tk[1]);
            assert(register_all(n0, seq![tk[1]]) == names@);
            out.push(Trans { date: *date, action: Action::PriceUpdate { asset: x, price: p } });
            return out;
        }
    }
    assert(e is Nothing);
    assert(names_of(e) =~= Seq::<Seq<u8>>::empty());
    out
}

/// The amounts of the legs of a transfer line, if every one parses.
fn leg_amounts(toks: &Vec<Vec<u8>>) -> (r: Option<Vec<i64>>)
    ensures
        match r {
            Some(a) => legs_ok(views(toks@)) && a@.len() == (toks@.len() - 2) / 2 && forall|j: int|
                0 <= j < a@.len() ==> int_token(views(toks@)[3 + 2 * j]) == Some(#[trigger] a@[j] as int),
            None => !legs_ok(views(toks@)),
        },
{
    let ghost tk = views(toks@);
    if toks.len() < 4 || toks.len() % 2 != 0 {
        return None;
    }
    let n = (toks.len() - 2) / 2;
    assert(toks@.len() == 2 * n + 2);
    let mut a: Vec<i64> = Vec::new();
    let mut j: usize = 0;
    while j < n
        invariant
            tk == views(toks@),
            toks@.len() >= 4,
            n == (toks@.len() - 2) / 2,
            toks@.len() == 2 * n + 2,
            0 <= j <= n,
            a@.len() == j,
            forall|k: int| 0 <= k < j ==> int_token(tk[3 + 2 * k]) == Some(#[trigger] a@[k] as int),
        decreases n - j,
    {
        let len = toks.len();
        assert(2 * j + 3 < len);
        let idx: usize = 2 * j + 3;
        match parse_int(toks[idx].as_slice()) {
            Some(v) => a.push(v),
            None => {
                assert(int_token(tk[3 + 2 * j]) is None);
                return None;
            },
        }
        j = j + 1;
    }
    assert(legs_ok(tk)) by {
        assert forall|k: int| 0 <= k < (tk.len() - 2) / 2 implies (#[trigger] int_token(tk[3 + 2 * k])) is Some by {
            assert(int_token(tk[3 + 2 * k]) == Some(a@[k] as int));
        }
    }
    Some(a)
}

/// Registers the names of a transfer line and builds its transfers.
fn emit_transfers(toks: &Vec<Vec<u8>>, amts: &Vec<i64>, names: &mut NameBank, d: Date) -> (r: Vec<Trans>)
    requires
        old(names).wf(),
        legs_ok(views(toks@)),
        is_word(views(toks@)[0], 116),
        amts@.len() == (toks@.len() - 2) / 2,
        forall|j: int| 0 <= j < amts@.len() ==> int_token(views(toks@)[3 + 2 * j]) == Some(#[trigger] amts@[j] as int),
        old(names)@.len() + toks@.len() < usize::MAX,
    ensures
        final(names).wf(),
        final(names)@ == register_all(old(names)@, names_of(Entry::Transfers(views(toks@)[1], legs(views(toks@))))),
        line_result(r@, Entry::Transfers(views(toks@)[1], legs(views(toks@))), final(names)@, d),
{
    let ghost tk = views(toks@);
    let ghost ls = legs(tk);
    let ghost nl = names_of(Entry::Transfers(tk[1], ls));
    let n = amts.len();
    assert(nl.len() == n + 1);
    assert(nl.take(0) =~= Seq::<Seq<u8>>::empty());
    assert(nl.take(1).drop_last() =~= nl.take(0));
    assert(nl.take(1).last() == tk[1]);
    assert(register_all(old(names)@, nl.take(0)) == old(names)@);
    assert(tk[1] == toks@[1]@);
    let fid = names.register_bytes(toks[1].as_slice());
    let mut out: Vec<Trans> = Vec::new();
    let mut j: usize = 0;
    while j < n
        invariant
            tk == views(toks@),
            ls == legs(tk),
            nl == names_of(Entry::Transfers(tk[1], ls)),
            nl.len() == n + 1,
            n == amts@.len(),
            n == ls.len(),
            forall|k: int| 0 <= k < amts@.len() ==> int_token(tk[3 + 2 * k]) == Some(#[trigger] amts@[k] as int),
            0 <= j <= n,
            names.wf(),
            names@ == register_all(old(names)@, nl.take(j + 1)),
            names@.len() <= old(names)@.len() + j + 1,
            old(names)@.len() + toks@.len() < usize::MAX,
            toks@.len() == 2 * n + 2,
            fid < names@.len(),
            names@[fid as int] == tk[1],
            out@.len() == j,
            forall|k: int| 0 <= k < j ==> #[trigger] transfer_leg(out@[k], tk[1], ls[k], names@, d),
        decreases n - j,
    {
        let ghost n0 = names@;
        let tid = names.register_bytes(toks[2 + 2 * j].as_slice());
        assert(nl.take(j + 2).drop_last() =~= nl.take(j + 1));
        assert(nl[j + 1] == ls[j as int].0);
        assert(tk[2 + 2 * j] == toks@[2 + 2 * j]@);
        out.push(Trans { date: d, action: Action::Transfer { from: fid, to: tid, amount: amts[j] } });
        assert forall|k: int| 0 <= k < j + 1 implies #[trigger] transfer_leg(out@[k], tk[1], ls[k], names@, d) by {
            if k < j {
                assert(transfer_leg(out@[k], tk[1], ls[k], n0, d));
            }
        }
        j = j + 1;
    }
    assert(nl.take(n + 1) =~= nl);
    out
}

} // verus!
