//! The conversion controller: user-input parsing, request-URL building,
//! composition of fetch and parse, and result formatting.
//!
//! Console reading and printing, and the HTTP call itself, happen outside
//! the library: each function here takes the line that was read or the
//! outcome that was observed, and returns the values or lines to act on.

use vstd::prelude::*;

use crate::api::ApiError;
use crate::config::ConfigApi;
use crate::decimal::{digits_val, pow10, spec_cents, spec_fixed2, Decimal, lemma_pow10_32};
use crate::parser::{
    all_wf, digits_end, is_ws, lemma_digits_end_chars, parse_document, parse_json, RateMapping,
};

verus! {

/// An error in one line of user input. It never leaves the controller:
/// the menu loop reports it and continues.
#[derive(Clone, Copy, Debug, PartialEq, Eq, Structural)]
pub enum InputError {
    /// The line held nothing but whitespace.
    EmptyInput,
    /// The line did not hold the expected number of tokens.
    WrongTokenCount,
    /// The amount token is not a number the library accepts.
    InvalidAmount,
}

impl InputError {
    /// The message shown for this input error.
    pub open spec fn spec_message(self) -> Seq<char> {
        match self {
            InputError::EmptyInput => "Empty input"@,
            InputError::WrongTokenCount => "Insufficient input"@,
            InputError::InvalidAmount => "Invalid amount"@,
        }
    }

    /// Returns the message shown for this input error.
    pub fn message(&self) -> (r: &'static str)
        ensures
            r@ == self.spec_message(),
    {
        match self {
            InputError::EmptyInput => "Empty input",
            InputError::WrongTokenCount => "Insufficient input",
            InputError::InvalidAmount => "Invalid amount",
        }
    }
}

/// One conversion request built from a line of user input: base and
/// target currency codes (the target empty in listing mode) and the
/// amount to convert.
#[derive(Debug)]
pub struct ConversionRequest {
    pub base: String,
    pub target: String,
    pub amount: Decimal,
}

/// Upper-cases an ASCII letter, leaving every other character alone.
pub open spec fn to_upper_char(c: char) -> char {
    if 97 <= c as u32 && c as u32 <= 122 {
        ((c as u32 - 32) as u8) as char
    } else {
        c
    }
}

/// The line with each ASCII letter upper-cased.
pub open spec fn spec_upper(s: Seq<char>) -> Seq<char> {
    Seq::new(s.len(), |i: int| to_upper_char(s[i]))
}

/// The first index at or after `i` that is whitespace or the end.
pub open spec fn token_end(s: Seq<char>, i: int) -> int
    decreases s.len() - i,
{
    if 0 <= i < s.len() && !is_ws(s[i]) {
        token_end(s, i + 1)
    } else {
        i
    }
}

pub proof fn lemma_token_end_bounds(s: Seq<char>, i: int)
    requires
        0 <= i,
    ensures
        i <= token_end(s, i),
        i <= s.len() ==> token_end(s, i) <= s.len(),
    decreases s.len() - i,
{
    if 0 <= i < s.len() && !is_ws(s[i]) {
        lemma_token_end_bounds(s, i + 1);
    }
}

/// The whitespace-separated tokens of the line from `i` on.
pub open spec fn spec_tokens(s: Seq<char>, i: int) -> Seq<Seq<char>>
    decreases s.len() - i,
    via spec_tokens_dec
{
    if i < 0 || i >= s.len() {
        Seq::empty()
    } else if is_ws(s[i]) {
        spec_tokens(s, i + 1)
    } else {
        seq![s.subrange(i, token_end(s, i))] + spec_tokens(s, token_end(s, i))
    }
}

#[via_fn]
proof fn spec_tokens_dec(s: Seq<char>, i: int) {
    if 0 <= i < s.len() && !is_ws(s[i]) {
        lemma_token_end_bounds(s, i + 1);
        assert(token_end(s, i) == token_end(s, i + 1));
    }
}

/// The tokens of the upper-cased line: what every input parser below
/// works on.
pub open spec fn input_tokens(s: Seq<char>) -> Seq<Seq<char>> {
    spec_tokens(spec_upper(s), 0)
}

/// The views of a sequence of strings.
pub open spec fn views_of(v: Seq<String>) -> Seq<Seq<char>> {
    Seq::new(v.len(), |i: int| v[i]@)
}

/// Relies on String::push: it appends exactly the one character.
#[verifier::external_body]
fn push_char(s: &mut String, c: char)
    ensures
        final(s)@ == old(s)@ + seq![c],
{
    s.push(c);
}

fn e_upper(s: &str) -> (r: String)
    ensures
        r@ == spec_upper(s@),
{
    let n = s.unicode_len();
    let mut out = String::new();
    let mut i: usize = 0;
    while i < n
        invariant
            n == s@.len(),
            i <= n,
            out@ == spec_upper(s@).take(i as int),
        decreases n - i,
    {
        let c = s.get_char(i);
        let u = c as u32;
        let uc = if 97 <= u && u <= 122 {
            ((u - 32) as u8) as char
        } else {
            c
        };
        proof {
            assert(uc == to_upper_char(s@[i as int]));
        }
        push_char(&mut out, uc);
        proof {
            assert(spec_upper(s@).take(i + 1) =~= spec_upper(s@).take(i as int) + seq![
                to_upper_char(s@[i as int]),
            ]);
        }
        i = i + 1;
    }
    proof {
        assert(spec_upper(s@).take(n as int) =~= spec_upper(s@));
    }
    out
}

fn e_token_end(s: &str, n: usize, i: usize) -> (j: usize)
    requires
        n == s@.len(),
        i <= n,
    ensures
        j as int == token_end(s@, i as int),
        i <= j <= n,
    decreases n - i,
{
    if i < n {
        let c = s.get_char(i);
        if !crate::parser::e_is_ws(c) {
            return e_token_end(s, n, i + 1);
        }
    }
    i
}

fn e_tokens_from(s: &str, n: usize, i: usize, acc: Vec<String>) -> (r: Vec<String>)
    requires
        n == s@.len(),
        i <= n,
    ensures
        views_of(r@) == views_of(acc@) + spec_tokens(s@, i as int),
    decreases n - i,
{
    if i >= n {
        proof {
            assert(views_of(acc@) + spec_tokens(s@, i as int) =~= views_of(acc@));
        }
        return acc;
    }
    let c = s.get_char(i);
    if crate::parser::e_is_ws(c) {
        return e_tokens_from(s, n, i + 1, acc);
    }
    let e = e_token_end(s, n, i);
    proof {
        assert(token_end(s@, i as int) == token_end(s@, i as int + 1));
        lemma_token_end_bounds(s@, i as int + 1);
    }
    let t = s.substring_char(i, e);
    let mut acc2 = acc;
    acc2.push(t.to_owned());
    proof {
        assert(views_of(acc2@) =~= views_of(acc@) + seq![
            s@.subrange(i as int, token_end(s@, i as int)),
        ]);
    }
    let r = e_tokens_from(s, n, e, acc2);
    proof {
        assert((views_of(acc@) + seq![s@.subrange(i as int, token_end(s@, i as int))])
            + spec_tokens(s@, e as int) =~= views_of(acc@) + spec_tokens(s@, i as int));
    }
    r
}

/// Splits the line into its whitespace-separated tokens.
fn e_tokens(s: &str) -> (r: Vec<String>)
    ensures
        views_of(r@) == spec_tokens(s@, 0),
{
    let n = s.unicode_len();
    let r = e_tokens_from(s, n, 0, Vec::new());
    proof {
        assert(views_of(Seq::<String>::empty()) =~= Seq::<Seq<char>>::empty());
        assert(views_of(r@) =~= spec_tokens(s@, 0));
    }
    r
}

/// Strips trailing fraction zeros, the way a plain float prints.
pub open spec fn normalize(m: nat, s: nat) -> (nat, nat)
    decreases s,
{
    if s > 0 && m % 10 == 0 {
        normalize(m / 10, (s - 1) as nat)
    } else {
        (m, s)
    }
}

pub proof fn lemma_normalize_bounds(m: nat, s: nat)
    ensures
        normalize(m, s).0 <= m,
        normalize(m, s).1 <= s,
    decreases s,
{
    if s > 0 && m % 10 == 0 {
        lemma_normalize_bounds(m / 10, (s - 1) as nat);
    }
}

/// The amount a digit string with sign and scale stands for, trailing
/// zeros stripped, when it fits 15 significant and 15 fraction digits.
pub open spec fn dec_of(neg: bool, digs: Seq<char>, scale: int) -> Option<Decimal> {
    if digits_val(digs) < pow10(15) && 0 <= scale <= 15 {
        let p = normalize(digits_val(digs), scale as nat);
        Some(Decimal { neg, mantissa: p.0 as u64, scale: p.1 as u32 })
    } else {
        None
    }
}

/// The amount grammar: an optional sign, then digits with at most one
/// point among them, at least one digit in all. Exponent and non-finite
/// forms are not accepted.
pub open spec fn parse_amount(s: Seq<char>) -> Option<Decimal> {
    let (neg, j) = if s.len() > 0 && (s[0] == '-' || s[0] == '+') {
        (s[0] == '-', 1int)
    } else {
        (false, 0int)
    };
    let ie = digits_end(s, j);
    if ie < s.len() && s[ie] == '.' {
        let fe = digits_end(s, ie + 1);
        if fe == s.len() && (ie > j || fe > ie + 1) {
            dec_of(neg, s.subrange(j, ie) + s.subrange(ie + 1, fe), fe - ie - 1)
        } else {
            None
        }
    } else if ie == s.len() && ie > j {
        dec_of(neg, s.subrange(j, ie), 0)
    } else {
        None
    }
}

fn e_parse_amount(t: &str) -> (r: Option<Decimal>)
    ensures
        match r {
            Some(d) => parse_amount(t@) == Some(d) && d.wf(),
            None => parse_amount(t@) is None,
        },
{
    proof {
        lemma_pow10_32();
    }
    let n = t.unicode_len();
    let (neg, j) = if n > 0 && (t.get_char(0) == '-' || t.get_char(0) == '+') {
        (t.get_char(0) == '-', 1usize)
    } else {
        (false, 0usize)
    };
    let ie = crate::parser::e_digits_end(t, n, j);
    proof {
        lemma_digits_end_chars(t@, j as int);
    }
    if ie < n && t.get_char(ie) == '.' {
        let fe = crate::parser::e_digits_end(t, n, ie + 1);
        proof {
            lemma_digits_end_chars(t@, ie as int + 1);
        }
        if !(fe == n && (ie > j || fe > ie + 1)) {
            return None;
        }
        let ghost digs = t@.subrange(j as int, ie as int) + t@.subrange(ie as int + 1, fe as int);
        let scale = fe - ie - 1;
        proof {
            crate::decimal::lemma_digits_val_concat(
                t@.subrange(j as int, ie as int),
                t@.subrange(ie as int + 1, fe as int),
            );
            crate::decimal::lemma_pow10_pos((fe - ie - 1) as nat);
            assert(digits_val(t@.subrange(j as int, ie as int)) * pow10((fe - ie - 1) as nat)
                >= digits_val(t@.subrange(j as int, ie as int)) * 1) by (nonlinear_arith)
                requires
                    pow10((fe - ie - 1) as nat) >= 1 && digits_val(
                        t@.subrange(j as int, ie as int),
                    ) >= 0,
            ;
        }
        let iv = crate::parser::e_digits_val(t, n, j, ie);
        let fv = crate::parser::e_digits_val(t, n, ie + 1, fe);
        match (iv, fv) {
            (Some(va), Some(vb)) => {
                if scale > 15 {
                    return None;
                }
                proof {
                    crate::decimal::lemma_pow10_mono((fe - ie - 1) as nat, 15);
                    assert((va as nat) * pow10((fe - ie - 1) as nat) <= (va as nat) * pow10(15))
                        by (nonlinear_arith)
                        requires
                            pow10((fe - ie - 1) as nat) <= pow10(15) && (va as nat) >= 0,
                    ;
                    assert((va as nat) * pow10(15) < pow10(15) * pow10(15)) by (nonlinear_arith)
                        requires
                            (va as nat) < pow10(15) && pow10(15) >= 1,
                    ;
                    crate::decimal::lemma_pow10_adds(15, 15);
                    reveal_with_fuel(crate::decimal::pow10, 33);
                }
                let p10 = crate::decimal::pow10_u128(scale as u32);
                let total = (va as u128) * p10 + (vb as u128);
                proof {
                    assert(total as nat == digits_val(digs));
                }
                if total >= 1000000000000000 {
                    None
                } else {
                    Some(normalize_exec(neg, total as u64, scale as u32))
                }
            },
            _ => {
                proof {
                    assert(digits_val(digs) >= pow10(15));
                }
                None
            },
        }
    } else if ie == n && ie > j {
        match crate::parser::e_digits_val(t, n, j, ie) {
            None => None,
            Some(v) => Some(normalize_exec(neg, v, 0)),
        }
    } else {
        None
    }
}

/// Strips trailing fraction zeros as [`normalize`] says.
fn normalize_exec(neg: bool, m: u64, sc: u32) -> (r: Decimal)
    requires
        m < pow10(15),
        sc <= 15,
    ensures
        ({
            let p = normalize(m as nat, sc as nat);
            r == (Decimal { neg, mantissa: p.0 as u64, scale: p.1 as u32 })
        }),
        r.wf(),
{
    let mut mm = m;
    let mut s2 = sc;
    while s2 > 0 && mm % 10 == 0
        invariant
            normalize(m as nat, sc as nat) == normalize(mm as nat, s2 as nat),
            mm <= m,
            s2 <= sc,
        decreases s2,
    {
        mm = mm / 10;
        s2 = s2 - 1;
    }
    proof {
        lemma_normalize_bounds(m as nat, sc as nat);
    }
    Decimal { neg, mantissa: mm, scale: s2 }
}

/// Reads a listing request from one line: exactly one token, the base
/// currency code, upper-cased; the target stays empty and the amount is
/// one.
pub fn parse_one_token_input(line: &str) -> (r: Result<ConversionRequest, InputError>)
    ensures
        input_tokens(line@).len() == 0 ==> (r matches Err(e) && e == InputError::EmptyInput),
        input_tokens(line@).len() == 1 ==> (r matches Ok(c) && c.base@ == input_tokens(line@)[0]
            && c.target@ == Seq::<char>::empty() && c.amount == (Decimal {
            neg: false,
            mantissa: 1,
            scale: 0,
        }) && c.amount.wf()),
        input_tokens(line@).len() > 1 ==> (r matches Err(e) && e == InputError::WrongTokenCount),
{
    let up = e_upper(line);
    let tks = e_tokens(up.as_str());
    if tks.len() == 0 {
        Err(InputError::EmptyInput)
    } else if tks.len() != 1 {
        Err(InputError::WrongTokenCount)
    } else {
        let base = tks[0].clone();
        proof {
            assert(base@ == views_of(tks@)[0]);
        }
        Ok(ConversionRequest { base, target: String::new(), amount: Decimal::one() })
    }
}

/// Reads a conversion request from one line: exactly three tokens —
/// base, target, amount — upper-cased, the amount a plain decimal.
pub fn parse_three_token_input(line: &str) -> (r: Result<ConversionRequest, InputError>)
    ensures
        input_tokens(line@).len() == 0 ==> (r matches Err(e) && e == InputError::EmptyInput),
        input_tokens(line@).len() != 0 && input_tokens(line@).len() != 3 ==> (r matches Err(e)
            && e == InputError::WrongTokenCount),
        input_tokens(line@).len() == 3 ==> {
            let tk = input_tokens(line@);
            &&& (parse_amount(tk[2]) matches Some(d) ==> (r matches Ok(c) && c.base@ == tk[0]
                && c.target@ == tk[1] && c.amount == d && c.amount.wf()))
            &&& (parse_amount(tk[2]) is None ==> (r matches Err(e) && e
                == InputError::InvalidAmount))
        },
{
    let up = e_upper(line);
    let tks = e_tokens(up.as_str());
    if tks.len() == 0 {
        Err(InputError::EmptyInput)
    } else if tks.len() != 3 {
        Err(InputError::WrongTokenCount)
    } else {
        proof {
            assert(tks@[0]@ == views_of(tks@)[0]);
            assert(tks@[1]@ == views_of(tks@)[1]);
            assert(tks@[2]@ == views_of(tks@)[2]);
        }
        match e_parse_amount(tks[2].as_str()) {
            None => Err(InputError::InvalidAmount),
            Some(amount) => {
                let base = tks[0].clone();
                let target = tks[1].clone();
                Ok(ConversionRequest { base, target, amount })
            },
        }
    }
}

/// The request URL the controller builds: base URL, then the `latest`
/// endpoint with base currency, target filter (empty in listing mode)
/// and API key.
pub open spec fn spec_request_url(
    url: Seq<char>,
    key: Seq<char>,
    base: Seq<char>,
    target: Seq<char>,
) -> Seq<char> {
    url + "latest?base_currency="@ + base + "&currencies="@ + target + "&apikey="@ + key
}

/// Builds the request URL for one conversion request.
pub fn build_request_url<C: ConfigApi>(cfg: &C, cur: &ConversionRequest) -> (r: String)
    ensures
        r@ == spec_request_url(cfg.spec_url(), cfg.spec_key(), cur.base@, cur.target@),
{
    let mut out = cfg.get_url();
    out.append("latest?base_currency=");
    out.append(cur.base.as_str());
    out.append("&currencies=");
    out.append(cur.target.as_str());
    out.append("&apikey=");
    let key = cfg.get_key();
    out.append(key.as_str());
    proof {
        assert(out@ =~= spec_request_url(cfg.spec_url(), cfg.spec_key(), cur.base@, cur.target@));
    }
    out
}

/// Turns the outcome of one fetch into a rate table: a fetch error is
/// passed through unchanged, and a body is decoded by the parser.
pub fn rates_of_fetch(fetched: Result<String, ApiError>) -> (r: Result<RateMapping, ApiError>)
    ensures
        fetched matches Err(e0) ==> (r matches Err(e) && e.code == e0.code && e.message@
            == e0.message@),
        fetched matches Ok(b) ==> {
            &&& (parse_document(b@) matches Some(m) ==> (r matches Ok(rm) && rm@ == m))
            &&& (parse_document(b@) is None ==> (r matches Err(e) && e.code
                == crate::api::ApiErrorType::DecodeFailure && e.message@
                == "Failed to parse JSON: invalid JSON document"@))
        },
{
    match fetched {
        Err(e) => Err(e),
        Ok(body) => match parse_json(body) {
            Ok(d) => Ok(d.data.rate),
            Err(e) => Err(e),
        },
    }
}

/// The lines the controller prints for one result. With exactly one
/// rate in the table this is conversion mode: the amount line and the
/// rate line, both rounded to two decimals. With any other count it is
/// listing mode: one `CODE: rate` line per entry, and no arithmetic.
pub open spec fn spec_render(
    base: Seq<char>,
    target: Seq<char>,
    amount: Decimal,
    m: crate::parser::Entries,
) -> Seq<Seq<char>> {
    if m.len() == 1 {
        let rate = m[0].1;
        let cents = spec_cents(
            amount.mantissa as nat,
            amount.scale as nat,
            rate.mantissa as nat,
            rate.scale as nat,
        );
        let neg = amount.neg != rate.neg;
        seq![
            amount.spec_chars() + seq![' '] + base + " = "@ + spec_fixed2(neg, cents) + seq![' ']
                + target,
            "Rate: "@ + spec_fixed2(rate.neg, spec_cents(rate.mantissa as nat, rate.scale as nat, 1, 0)),
        ]
    } else {
        Seq::new(
            m.len(),
            |i: int|
                m[i].0 + ": "@ + spec_fixed2(
                    m[i].1.neg,
                    spec_cents(m[i].1.mantissa as nat, m[i].1.scale as nat, 1, 0),
                ),
        )
    }
}

/// Renders the result lines for one request, as [`spec_render`] says.
pub fn render_result(cur: &ConversionRequest, rates: &RateMapping) -> (lines: Vec<String>)
    requires
        cur.amount.wf(),
        all_wf(rates@),
    ensures
        views_of(lines@) == spec_render(cur.base@, cur.target@, cur.amount, rates@),
{
    let ghost target_lines = spec_render(cur.base@, cur.target@, cur.amount, rates@);
    let mut lines: Vec<String> = Vec::new();
    if rates.len() == 1 {
        let rate = rates.rate_at(0);
        let one = Decimal::one();
        let cents = crate::decimal::convert_cents(&cur.amount, &rate);
        let neg = cur.amount.neg != rate.neg;
        let mut l1 = cur.amount.to_display();
        l1.append(" ");
        l1.append(cur.base.as_str());
        l1.append(" = ");
        let conv = crate::decimal::format_fixed2(neg, cents);
        l1.append(conv.as_str());
        l1.append(" ");
        l1.append(cur.target.as_str());
        proof {
            reveal_strlit(" ");
            assert(" "@ =~= seq![' ']);
            assert(l1@ =~= target_lines[0]);
        }
        let rcents = crate::decimal::convert_cents(&rate, &one);
        let mut l2 = String::from_str("Rate: ");
        let rfix = crate::decimal::format_fixed2(rate.neg, rcents);
        l2.append(rfix.as_str());
        proof {
            assert(l2@ =~= target_lines[1]);
        }
        lines.push(l1);
        lines.push(l2);
        proof {
            assert(views_of(lines@) =~~= target_lines);
        }
    } else {
        let n = rates.len();
        let mut i: usize = 0;
        while i < n
            invariant
                n == rates@.len(),
                i <= n,
                cur.amount.wf(),
                all_wf(rates@),
                n != 1,
                target_lines == spec_render(cur.base@, cur.target@, cur.amount, rates@),
                views_of(lines@) == target_lines.take(i as int),
            decreases n - i,
        {
            let rate = rates.rate_at(i);
            let one = Decimal::one();
            let rcents = crate::decimal::convert_cents(&rate, &one);
            let mut l = rates.key_at(i);
            l.append(": ");
            let rfix = crate::decimal::format_fixed2(rate.neg, rcents);
            l.append(rfix.as_str());
            proof {
                assert(l@ =~= target_lines[i as int]);
            }
            let ghost lv = lines@;
            lines.push(l);
            proof {
                assert(lines@ == lv.push(l));
                assert(views_of(lv).len() == lv.len());
                assert(lv.len() == i as int);
                assert forall|k: int| 0 <= k < lines@.len() implies views_of(lines@)[k]
                    == target_lines.take(i + 1)[k] by {
                    assert(views_of(lines@)[k] == lines@[k]@);
                    if k < i as int {
                        assert(views_of(lv) == target_lines.take(i as int));
                        assert(views_of(lv)[k] == lv[k]@);
                        assert(lines@[k] == lv[k]);
                        assert(lv[k]@ == target_lines.take(i as int)[k]);
                    } else {
                        assert(lines@[k]@ == target_lines[i as int]);
                    }
                }
                assert(views_of(lines@) =~~= target_lines.take(i + 1));
            }
            i = i + 1;
        }
        proof {
            assert(views_of(lines@) =~~= target_lines);
        }
    }
    lines
}

/// What the menu loop does with one selection line.
#[derive(Clone, Copy, Debug, PartialEq, Eq, Structural)]
pub enum MenuAction {
    /// List all rates for a base currency.
    ListAll,
    /// Convert a specific amount between two currencies.
    ConvertSpecific,
    /// Leave the program with a success status.
    Exit,
    /// Anything else: report invalid input and show the menu again.
    Invalid,
}

/// Which action each selection line calls for: the options are `1`, `2`
/// and `3`, alone on their line.
pub open spec fn spec_dispatch(s: Seq<char>) -> MenuAction {
    let tk = spec_tokens(s, 0);
    if tk.len() == 1 && tk[0] == "1"@ {
        MenuAction::ListAll
    } else if tk.len() == 1 && tk[0] == "2"@ {
        MenuAction::ConvertSpecific
    } else if tk.len() == 1 && tk[0] == "3"@ {
        MenuAction::Exit
    } else {
        MenuAction::Invalid
    }
}

/// Decides what one menu selection line asks for. Selecting the exit
/// option is the only way the program ends, and it always maps to
/// [`MenuAction::Exit`].
pub fn dispatch_menu(line: &str) -> (a: MenuAction)
    ensures
        a == spec_dispatch(line@),
{
    let tks = e_tokens(line);
    if tks.len() != 1 {
        return MenuAction::Invalid;
    }
    proof {
        assert(tks@[0]@ == views_of(tks@)[0]);
    }
    let t = &tks[0];
    if t.eq(&"1".to_owned()) {
        MenuAction::ListAll
    } else if t.eq(&"2".to_owned()) {
        MenuAction::ConvertSpecific
    } else if t.eq(&"3".to_owned()) {
        MenuAction::Exit
    } else {
        MenuAction::Invalid
    }
}

/// The three menu lines, exactly as the client prints them.
pub fn menu_lines() -> (r: Vec<String>)
    ensures
        views_of(r@) == seq![
            "\n1) All currencies rates"@,
            "2) Convert currency"@,
            "3) Exit\n"@,
        ],
{
    let mut r: Vec<String> = Vec::new();
    r.push(String::from_str("\n1) All currencies rates"));
    r.push(String::from_str("2) Convert currency"));
    r.push(String::from_str("3) Exit\n"));
    proof {
        assert(views_of(r@) =~= seq![
            "\n1) All currencies rates"@,
            "2) Convert currency"@,
            "3) Exit\n"@,
        ]);
    }
    r
}

} // verus!
