use poorman::date::Date;
use poorman::history::{spending, Frame};
use poorman::ledger::{update, Action, State, Trans};
use poorman::names::{BuiltIn, NameBank, NR_BUILT_IN_ACCOUNTS, RECEIVING, SPENDING, FIAT};
use poorman::parse::{parse_int, parse_date, parse_line, split_tokens};

fn d(y: u32, m: u32, day: u32) -> Date {
    Date::new(y, m, day)
}

fn transfer(date: Date, from: usize, to: usize, amount: i64) -> Trans {
    Trans { date, action: Action::Transfer { from, to, amount } }
}

#[test]
fn register_same_name_same_id() {
    let mut bank = NameBank::new();
    let a = bank.register("checking");
    let b = bank.register("checking");
    assert_eq!(a, b);
    assert_eq!(a, NR_BUILT_IN_ACCOUNTS);
    assert_eq!(bank.len(), NR_BUILT_IN_ACCOUNTS + 1);
}

#[test]
fn register_distinct_names_distinct_ids() {
    let mut bank = NameBank::new();
    let a = bank.register("checking");
    let b = bank.register("savings");
    assert_ne!(a, b);
    assert_eq!(b, a + 1);
    assert_eq!(bank.resolve(a), b"checking".to_vec());
    assert_eq!(bank.resolve(b), b"savings".to_vec());
    assert_eq!(bank.lookup(b"savings"), Some(b));
    assert_eq!(bank.lookup(b"nothing"), None);
}

#[test]
fn built_ins_come_first_in_fixed_order() {
    let mut bank = NameBank::new();
    bank.register("zzz");
    bank.register("spent");
    let expected: [&[u8]; 8] = [b"net", b"yield", b"assets", b"roi", b"spent", b"income", b"fiat", b"shadow"];
    for (i, name) in expected.iter().enumerate() {
        assert_eq!(bank.resolve(i), name.to_vec());
    }
    assert_eq!(bank.register("spent"), SPENDING);
    assert_eq!(BuiltIn::Spending.id(), SPENDING);
    assert_eq!(BuiltIn::Receiving.id(), RECEIVING);
    assert_eq!(BuiltIn::Fiat.id(), FIAT);
    assert_eq!(bank.len(), NR_BUILT_IN_ACCOUNTS + 1);
}

#[test]
fn date_order_and_month() {
    assert!(d(2024, 1, 5).is_before(&d(2024, 2, 1)));
    assert!(!d(2024, 2, 1).is_before(&d(2024, 2, 1)));
    assert!(Date::sentinel().is_before(&d(1, 1, 1)));
    assert!(d(2024, 3, 1).same_month(&d(2024, 3, 31)));
    assert!(!d(2024, 3, 1).same_month(&d(2023, 3, 1)));
    assert_eq!(d(2024, 1, 5).month_number(), 2024 * 12 + 1);
}

#[test]
fn tokens_and_numbers() {
    let t = split_tokens(b"  t a\tb  12 ");
    assert_eq!(t, vec![b"t".to_vec(), b"a".to_vec(), b"b".to_vec(), b"12".to_vec()]);
    assert_eq!(parse_int(b"-250"), Some(-250));
    assert_eq!(parse_int(b"007"), Some(7));
    assert_eq!(parse_int(b"12a"), None);
    assert_eq!(parse_int(b"-"), None);
    assert_eq!(parse_int(b"999999999999999999"), Some(999_999_999_999_999_999));
    assert_eq!(parse_int(b"1000000000000000000"), None);
    assert_eq!(parse_date(b"2024-02-10"), Some(d(2024, 2, 10)));
    assert_eq!(parse_date(b"2024-13-10"), None);
    assert_eq!(parse_date(b"2024-00-10"), None);
    assert_eq!(parse_date(b"2024/02/10"), None);
}

#[test]
fn date_line_moves_cursor_and_emits_nothing() {
    let mut bank = NameBank::new();
    let mut date = Date::sentinel();
    assert!(parse_line("2024-01-05", &mut bank, &mut date).is_empty());
    assert_eq!(date, d(2024, 1, 5));
    assert!(parse_line("", &mut bank, &mut date).is_empty());
    assert!(parse_line("   # t a b 5", &mut bank, &mut date).is_empty());
    assert_eq!(date, d(2024, 1, 5));
    assert_eq!(bank.len(), NR_BUILT_IN_ACCOUNTS);
}

#[test]
fn simple_and_compound_entries() {
    let mut bank = NameBank::new();
    let mut date = d(2024, 1, 5);
    let ts = parse_line("t checking spent 5000", &mut bank, &mut date);
    let checking = bank.lookup(b"checking").unwrap();
    assert_eq!(ts, vec![transfer(d(2024, 1, 5), checking, SPENDING, 5000)]);
    let ts = parse_line("t checking spent 100 savings 2500 rent 70000", &mut bank, &mut date);
    let savings = bank.lookup(b"savings").unwrap();
    let rent = bank.lookup(b"rent").unwrap();
    assert_eq!(savings, checking + 1);
    assert_eq!(rent, checking + 2);
    assert_eq!(
        ts,
        vec![
            transfer(d(2024, 1, 5), checking, SPENDING, 100),
            transfer(d(2024, 1, 5), checking, savings, 2500),
            transfer(d(2024, 1, 5), checking, rent, 70000),
        ]
    );
}

#[test]
fn trade_and_price_entries() {
    let mut bank = NameBank::new();
    let mut date = d(2024, 3, 1);
    let ts = parse_line("b vt 3 9520 broker", &mut bank, &mut date);
    let vt = bank.lookup(b"vt").unwrap();
    let broker = bank.lookup(b"broker").unwrap();
    assert_eq!(ts, vec![Trans { date, action: Action::Trade { asset: vt, account: broker, amount: 3, price: 9520 } }]);
    let ts = parse_line("p vt 9800", &mut bank, &mut date);
    assert_eq!(ts, vec![Trans { date, action: Action::PriceUpdate { asset: vt, price: 9800 } }]);
}

#[test]
fn malformed_lines_have_no_effect() {
    let mut bank = NameBank::new();
    let mut date = d(2024, 3, 1);
    for line in ["t a b", "t a b 5 c", "t a b x", "b vt 3 x broker", "p vt", "q a b 5", "2024-13-01", "2024-01-01 t"] {
        assert!(parse_line(line, &mut bank, &mut date).is_empty(), "{}", line);
    }
    assert_eq!(bank.len(), NR_BUILT_IN_ACCOUNTS);
    assert_eq!(date, d(2024, 3, 1));
}

#[test]
fn transfer_moves_amount() {
    let mut bank = NameBank::new();
    let x = bank.register("x");
    let y = bank.register("y");
    let mut st = State::new(&bank);
    let before: i64 = st.accounts.iter().skip(NR_BUILT_IN_ACCOUNTS).sum();
    let ts = vec![transfer(d(2024, 1, 1), x, y, 1234)];
    assert_eq!(update(&ts, &mut st, None, None), Ok(()));
    assert_eq!(st.accounts[x], -1234);
    assert_eq!(st.accounts[y], 1234);
    let after: i64 = st.accounts.iter().skip(NR_BUILT_IN_ACCOUNTS).sum();
    assert_eq!(before, after);
}

#[test]
fn trade_and_price_update_effects() {
    let mut bank = NameBank::new();
    let vt = bank.register("vt");
    let broker = bank.register("broker");
    let other = bank.register("other");
    let mut st = State::new(&bank);
    let ts = vec![
        Trans { date: d(2024, 1, 1), action: Action::Trade { asset: vt, account: broker, amount: 3, price: 9520 } },
        Trans { date: d(2024, 1, 2), action: Action::PriceUpdate { asset: other, price: 777 } },
    ];
    assert_eq!(update(&ts, &mut st, None, None), Ok(()));
    assert_eq!(st.asset_amounts[vt], 3);
    assert_eq!(st.accounts[broker], -28560);
    assert_eq!(st.asset_prices[other], 777);
    assert_eq!(st.asset_amounts[other], 0);
    assert_eq!(st.asset_amounts[other] * st.asset_prices[other], 0);
}

#[test]
fn update_respects_half_open_range() {
    let mut bank = NameBank::new();
    let x = bank.register("x");
    let ts = vec![
        transfer(d(2024, 1, 1), x, SPENDING, 1),
        transfer(d(2024, 2, 1), x, SPENDING, 10),
        transfer(d(2024, 3, 1), x, SPENDING, 100),
    ];
    let mut st = State::new(&bank);
    assert_eq!(update(&ts, &mut st, Some(d(2024, 2, 1)), Some(d(2024, 3, 1))), Ok(()));
    assert_eq!(st.accounts[SPENDING], 10);
    let mut st = State::new(&bank);
    assert_eq!(update(&ts, &mut st, None, Some(d(2024, 2, 1))), Ok(()));
    assert_eq!(st.accounts[SPENDING], 1);
}

#[test]
fn update_stops_before_overflow_or_unknown_id() {
    let mut bank = NameBank::new();
    let x = bank.register("x");
    let y = bank.register("y");
    let ts = vec![transfer(d(2024, 1, 1), x, y, 5), transfer(d(2024, 1, 2), x, y, i64::MAX)];
    let mut st = State::new(&bank);
    assert_eq!(update(&ts, &mut st, None, None), Err(1));
    assert_eq!(st.accounts[y], 5);
    let ts = vec![transfer(d(2024, 1, 1), x, 99, 5)];
    let mut st = State::new(&bank);
    assert_eq!(update(&ts, &mut st, None, None), Err(0));
    assert_eq!(st.accounts[x], 0);
}

#[test]
fn replay_twice_gives_same_balances() {
    let mut bank = NameBank::new();
    let mut date = Date::sentinel();
    let mut ts = Vec::new();
    for line in ["2024-01-01", "t income checking 300000", "t checking spent 4500 savings 1000", "b vt 2 10000 checking", "p vt 10100"] {
        ts.extend(parse_line(line, &mut bank, &mut date));
    }
    let mut a = State::new(&bank);
    let mut b = State::new(&bank);
    assert_eq!(update(&ts, &mut a, None, None), Ok(()));
    assert_eq!(update(&ts, &mut b, None, None), Ok(()));
    assert_eq!(a.accounts, b.accounts);
    assert_eq!(a.asset_amounts, b.asset_amounts);
    assert_eq!(a.asset_prices, b.asset_prices);
}

#[test]
fn spending_example_two_months() {
    let mut bank = NameBank::new();
    let checking = bank.register("checking");
    let ts = vec![
        transfer(d(2024, 1, 5), checking, SPENDING, 5000),
        transfer(d(2024, 2, 10), checking, SPENDING, 3000),
    ];
    let mut st = State::new(&bank);
    let h = spending(&ts, &mut st).unwrap();
    assert_eq!(
        h,
        vec![
            Frame { year: 2024, month: 1, spent: 5000, received: 0 },
            Frame { year: 2024, month: 2, spent: 3000, received: 0 },
        ]
    );
    assert_eq!(st.accounts[checking], -8000);
    assert_eq!(st.accounts[SPENDING], 8000);
}

#[test]
fn spending_fills_empty_months_across_years() {
    let mut bank = NameBank::new();
    let checking = bank.register("checking");
    let ts = vec![
        transfer(d(2023, 11, 5), RECEIVING, checking, 700),
        transfer(d(2024, 2, 10), checking, SPENDING, 30),
        transfer(d(2024, 2, 11), SPENDING, checking, 10),
    ];
    let mut st = State::new(&bank);
    let h = spending(&ts, &mut st).unwrap();
    assert_eq!(
        h,
        vec![
            Frame { year: 2023, month: 11, spent: 0, received: 700 },
            Frame { year: 2023, month: 12, spent: 0, received: 0 },
            Frame { year: 2024, month: 1, spent: 0, received: 0 },
            Frame { year: 2024, month: 2, spent: 20, received: 0 },
        ]
    );
    for w in h.windows(2) {
        assert_eq!(w[0].year as u64 * 12 + w[0].month as u64 + 1, w[1].year as u64 * 12 + w[1].month as u64);
    }
}

#[test]
fn spending_empty_ledger_has_no_frames() {
    let bank = NameBank::new();
    let mut st = State::new(&bank);
    assert_eq!(spending(&[], &mut st), Ok(vec![]));
}

#[test]
fn trailing_twelve_frames_match_direct_sum() {
    let mut bank = NameBank::new();
    let c = bank.register("c");
    let mut ts = Vec::new();
    for i in 0..20u32 {
        let (y, m) = (2023 + i / 12, i % 12 + 1);
        ts.push(transfer(d(y, m, 3), c, SPENDING, (i as i64 + 1) * 100));
        if i % 3 == 0 {
            ts.push(transfer(d(y, m, 20), c, SPENDING, 7));
        }
    }
    let mut st = State::new(&bank);
    let h = spending(&ts, &mut st).unwrap();
    assert_eq!(h.len(), 20);
    let trailing: i128 = h.iter().rev().take(12).map(|f| f.spent).sum();
    let last = h.last().unwrap();
    let hi = last.year as u64 * 12 + last.month as u64;
    let direct: i128 = ts
        .iter()
        .filter(|t| t.date.month_number() + 11 >= hi)
        .map(|t| match t.action {
            Action::Transfer { amount, .. } => amount as i128,
            _ => 0,
        })
        .sum();
    assert_eq!(trailing, direct);
}

#[test]
fn spending_reports_overflow_index() {
    let mut bank = NameBank::new();
    let c = bank.register("c");
    let ts = vec![transfer(d(2024, 1, 1), c, SPENDING, i64::MIN)];
    let mut st = State::new(&bank);
    assert_eq!(spending(&ts, &mut st), Err(0));
}
