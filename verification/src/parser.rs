//! Decoding of the JSON rate document.
//!
//! A response body is expected to be a JSON object with a `data` member
//! holding an object of currency-code/number pairs; other top-level members
//! are skipped. The grammar the library accepts is written down as spec
//! functions over the character sequence, and the executable parser returns
//! exactly what the grammar says. Numbers are read as exact decimals
//! ([`crate::decimal::Decimal`]); a number that needs more than 15
//! significant digits or 15 fraction digits, or uses exponent notation,
//! is rejected.

use vstd::prelude::*;

use crate::api::{ApiError, ApiErrorType};
use crate::decimal::{
    digit_val, digits_val, is_digit, pow10, Decimal, lemma_pow10_32,
};

verus! {

/// One decoded rate table: currency code paired with its rate, in the
/// order the document gave them, with unique codes.
pub type Entries = Seq<(Seq<char>, Decimal)>;

/// JSON whitespace.
pub open spec fn is_ws(c: char) -> bool {
    c == ' ' || c == '\n' || c == '\t' || c == '\r'
}

/// A character allowed in a currency-code key: anything but a quote, a
/// backslash or a control character.
pub open spec fn is_key_char(c: char) -> bool {
    c != '"' && c != '\\' && c as u32 >= 32
}

/// A character that may continue an unquoted scalar (number or keyword)
/// being skipped.
pub open spec fn is_atom_char(c: char) -> bool {
    is_digit(c) || (97 <= c as u32 && c as u32 <= 122) || (65 <= c as u32 && c as u32 <= 90)
        || c == '-' || c == '+' || c == '.'
}

/// The first index at or after `i` that is not whitespace.
pub open spec fn skip_ws(s: Seq<char>, i: int) -> int
    decreases s.len() - i,
{
    if 0 <= i < s.len() && is_ws(s[i]) {
        skip_ws(s, i + 1)
    } else {
        i
    }
}

/// The index just past the closing quote of a key string whose body starts
/// at `i`, provided every character before the quote is a plain key
/// character.
pub open spec fn key_end(s: Seq<char>, i: int) -> Option<int>
    decreases s.len() - i,
{
    if i < 0 || i >= s.len() {
        None
    } else if s[i] == '"' {
        Some(i + 1)
    } else if is_key_char(s[i]) {
        key_end(s, i + 1)
    } else {
        None
    }
}

/// The index just past the closing quote of any string body starting at
/// `i`, where a backslash escapes the following character.
pub open spec fn str_end(s: Seq<char>, i: int) -> Option<int>
    decreases s.len() - i,
{
    if i < 0 || i >= s.len() {
        None
    } else if s[i] == '"' {
        Some(i + 1)
    } else if s[i] == '\\' {
        if i + 1 < s.len() {
            str_end(s, i + 2)
        } else {
            None
        }
    } else {
        str_end(s, i + 1)
    }
}

/// The first index at or after `i` that is not a digit.
pub open spec fn digits_end(s: Seq<char>, i: int) -> int
    decreases s.len() - i,
{
    if 0 <= i < s.len() && is_digit(s[i]) {
        digits_end(s, i + 1)
    } else {
        i
    }
}

/// The first index at or after `i` that cannot continue a scalar.
pub open spec fn atom_end(s: Seq<char>, i: int) -> int
    decreases s.len() - i,
{
    if 0 <= i < s.len() && is_atom_char(s[i]) {
        atom_end(s, i + 1)
    } else {
        i
    }
}

/// Scans past the rest of a container that was opened before `i`:
/// `depth` open brackets are pending, and `in_str` says whether `i` is
/// inside a string. Returns the index just past the bracket that closes
/// the outermost container. Only bracket balance and string boundaries
/// are checked: the library does not validate the inside of members it
/// ignores.
pub open spec fn scan_balance(s: Seq<char>, i: int, depth: nat, in_str: bool) -> Option<int>
    decreases s.len() - i,
{
    if i < 0 || i >= s.len() {
        None
    } else if in_str {
        if s[i] == '\\' {
            if i + 1 < s.len() {
                scan_balance(s, i + 2, depth, true)
            } else {
                None
            }
        } else if s[i] == '"' {
            scan_balance(s, i + 1, depth, false)
        } else {
            scan_balance(s, i + 1, depth, true)
        }
    } else if s[i] == '"' {
        scan_balance(s, i + 1, depth, true)
    } else if s[i] == '{' || s[i] == '[' {
        scan_balance(s, i + 1, depth + 1, false)
    } else if s[i] == '}' || s[i] == ']' {
        if depth == 1 {
            Some(i + 1)
        } else {
            scan_balance(s, i + 1, (depth - 1) as nat, false)
        }
    } else {
        scan_balance(s, i + 1, depth, false)
    }
}

/// The index just past one skipped JSON value starting at `i`: a string,
/// a bracketed container, or an unquoted scalar.
pub open spec fn skip_value(s: Seq<char>, i: int) -> Option<int> {
    if i < 0 || i >= s.len() {
        None
    } else if s[i] == '"' {
        str_end(s, i + 1)
    } else if s[i] == '{' || s[i] == '[' {
        scan_balance(s, i + 1, 1, false)
    } else if is_atom_char(s[i]) {
        Some(atom_end(s, i))
    } else {
        None
    }
}

/// A quoted key starting at `i`: the index past it and its text.
pub open spec fn parse_key(s: Seq<char>, i: int) -> Option<(int, Seq<char>)> {
    if 0 <= i < s.len() && s[i] == '"' {
        match key_end(s, i + 1) {
            Some(e) => Some((e, s.subrange(i + 1, e - 1))),
            None => None,
        }
    } else {
        None
    }
}

/// Packs parsed digits into a decimal if they fit 15 significant and 15
/// fraction digits.
pub open spec fn make_decimal(neg: bool, digs: Seq<char>, scale: int, end: int) -> Option<
    (int, Decimal),
> {
    if digits_val(digs) < pow10(15) && scale <= 15 {
        Some((end, Decimal { neg, mantissa: digits_val(digs) as u64, scale: scale as u32 }))
    } else {
        None
    }
}

/// A JSON number starting at `i`: an optional minus sign, an integer part
/// without a superfluous leading zero, and an optional non-empty fraction.
pub open spec fn parse_number(s: Seq<char>, i: int) -> Option<(int, Decimal)> {
    let (neg, j) = if 0 <= i < s.len() && s[i] == '-' {
        (true, i + 1)
    } else {
        (false, i)
    };
    if j < s.len() && is_digit(s[j]) {
        let ie = digits_end(s, j);
        if s[j] == '0' && ie != j + 1 {
            None
        } else if ie < s.len() && s[ie] == '.' {
            let fe = digits_end(s, ie + 1);
            if fe == ie + 1 {
                None
            } else {
                make_decimal(neg, s.subrange(j, ie) + s.subrange(ie + 1, fe), fe - ie - 1, fe)
            }
        } else {
            make_decimal(neg, s.subrange(j, ie), 0, ie)
        }
    } else {
        None
    }
}

/// The index of the first entry with key `k`, or -1.
pub open spec fn key_idx(m: Entries, k: Seq<char>) -> int
    decreases m.len(),
{
    if m.len() == 0 {
        -1
    } else if m.first().0 == k {
        0
    } else {
        let r = key_idx(m.drop_first(), k);
        if r == -1 {
            -1
        } else {
            r + 1
        }
    }
}

/// Adds an entry, replacing the value of an existing key in place.
pub open spec fn insert_entry(m: Entries, k: Seq<char>, v: Decimal) -> Entries {
    if key_idx(m, k) >= 0 {
        m.update(key_idx(m, k), (k, v))
    } else {
        m.push((k, v))
    }
}

pub proof fn lemma_skip_ws_bounds(s: Seq<char>, i: int)
    requires
        0 <= i,
    ensures
        i <= skip_ws(s, i),
        i <= s.len() ==> skip_ws(s, i) <= s.len(),
        skip_ws(s, i) < s.len() ==> !is_ws(s[skip_ws(s, i)]),
    decreases s.len() - i,
{
    if 0 <= i < s.len() && is_ws(s[i]) {
        lemma_skip_ws_bounds(s, i + 1);
    }
}

pub proof fn lemma_key_end_bounds(s: Seq<char>, i: int)
    ensures
        key_end(s, i) matches Some(e) ==> i < e <= s.len(),
    decreases s.len() - i,
{
    if 0 <= i < s.len() && s[i] != '"' && is_key_char(s[i]) {
        lemma_key_end_bounds(s, i + 1);
    }
}

pub proof fn lemma_str_end_bounds(s: Seq<char>, i: int)
    ensures
        str_end(s, i) matches Some(e) ==> i < e <= s.len(),
    decreases s.len() - i,
{
    if 0 <= i < s.len() && s[i] != '"' {
        if s[i] == '\\' {
            if i + 1 < s.len() {
                lemma_str_end_bounds(s, i + 2);
            }
        } else {
            lemma_str_end_bounds(s, i + 1);
        }
    }
}

pub proof fn lemma_digits_end_bounds(s: Seq<char>, i: int)
    ensures
        i <= digits_end(s, i),
        i <= s.len() ==> digits_end(s, i) <= s.len(),
    decreases s.len() - i,
{
    if 0 <= i < s.len() && is_digit(s[i]) {
        lemma_digits_end_bounds(s, i + 1);
    }
}

pub proof fn lemma_atom_end_bounds(s: Seq<char>, i: int)
    ensures
        i <= atom_end(s, i),
        i <= s.len() ==> atom_end(s, i) <= s.len(),
    decreases s.len() - i,
{
    if 0 <= i < s.len() && is_atom_char(s[i]) {
        lemma_atom_end_bounds(s, i + 1);
    }
}

pub proof fn lemma_scan_balance_bounds(s: Seq<char>, i: int, depth: nat, in_str: bool)
    ensures
        scan_balance(s, i, depth, in_str) matches Some(e) ==> i < e <= s.len(),
    decreases s.len() - i,
{
    if 0 <= i < s.len() {
        lemma_scan_balance_bounds(s, i + 1, depth, true);
        lemma_scan_balance_bounds(s, i + 1, depth, false);
        if i + 1 < s.len() {
            lemma_scan_balance_bounds(s, i + 2, depth, true);
        }
        lemma_scan_balance_bounds(s, i + 1, (depth + 1) as nat, false);
        lemma_scan_balance_bounds(s, i + 1, (depth - 1) as nat, false);
    }
}

pub proof fn lemma_skip_value_bounds(s: Seq<char>, i: int)
    ensures
        skip_value(s, i) matches Some(e) ==> i < e <= s.len(),
{
    if 0 <= i < s.len() {
        lemma_str_end_bounds(s, i + 1);
        lemma_scan_balance_bounds(s, i + 1, 1, false);
        lemma_atom_end_bounds(s, i);
        if is_atom_char(s[i]) {
            assert(atom_end(s, i) == atom_end(s, i + 1));
            lemma_atom_end_bounds(s, i + 1);
        }
    }
}

pub proof fn lemma_parse_key_bounds(s: Seq<char>, i: int)
    ensures
        parse_key(s, i) matches Some(p) ==> i + 2 <= p.0 <= s.len() && p.1.len() == p.0 - i
            - 2,
{
    if 0 <= i < s.len() && s[i] == '"' {
        lemma_key_end_bounds(s, i + 1);
    }
}

pub proof fn lemma_parse_number_bounds(s: Seq<char>, i: int)
    requires
        0 <= i,
    ensures
        parse_number(s, i) matches Some(p) ==> i < p.0 <= s.len(),
{
    let j = if 0 <= i < s.len() && s[i] == '-' {
        i + 1
    } else {
        i
    };
    lemma_digits_end_bounds(s, j);
    if j < s.len() && is_digit(s[j]) {
        let ie = digits_end(s, j);
        assert(digits_end(s, j) == digits_end(s, j + 1));
        lemma_digits_end_bounds(s, j + 1);
        if ie < s.len() && s[ie] == '.' {
            lemma_digits_end_bounds(s, ie + 1);
        }
    }
}

/// The members of the rate object from `i` (at a key) on, accumulated
/// into `acc`: `"CODE": number` pairs separated by commas, closed by `}`.
pub open spec fn parse_rate_members(s: Seq<char>, i: int, acc: Entries) -> Option<(int, Entries)>
    decreases s.len() - i,
    via parse_rate_members_dec
{
    match parse_key(s, i) {
        None => None,
        Some((ke, k)) => {
            let c = skip_ws(s, ke);
            if c < s.len() && s[c] == ':' {
                let vs = skip_ws(s, c + 1);
                match parse_number(s, vs) {
                    None => None,
                    Some((ve, d)) => {
                        let acc2 = insert_entry(acc, k, d);
                        let t = skip_ws(s, ve);
                        if t < s.len() && s[t] == ',' {
                            parse_rate_members(s, skip_ws(s, t + 1), acc2)
                        } else if t < s.len() && s[t] == '}' {
                            Some((t + 1, acc2))
                        } else {
                            None
                        }
                    },
                }
            } else {
                None
            }
        },
    }
}

#[via_fn]
proof fn parse_rate_members_dec(s: Seq<char>, i: int, acc: Entries) {
    lemma_parse_key_bounds(s, i);
    match parse_key(s, i) {
        None => {},
        Some((ke, k)) => {
            lemma_skip_ws_bounds(s, ke);
            let c = skip_ws(s, ke);
            lemma_skip_ws_bounds(s, c + 1);
            let vs = skip_ws(s, c + 1);
            lemma_parse_number_bounds(s, vs);
            match parse_number(s, vs) {
                None => {},
                Some((ve, d)) => {
                    lemma_skip_ws_bounds(s, ve);
                    let t = skip_ws(s, ve);
                    lemma_skip_ws_bounds(s, t + 1);
                },
            }
        },
    }
}

/// The rate object at `i`: `{}` for no rates, or its members.
pub open spec fn parse_rate_object(s: Seq<char>, i: int) -> Option<(int, Entries)> {
    if 0 <= i < s.len() && s[i] == '{' {
        let j = skip_ws(s, i + 1);
        if j < s.len() && s[j] == '}' {
            Some((j + 1, Seq::empty()))
        } else {
            parse_rate_members(s, j, Seq::empty())
        }
    } else {
        None
    }
}

pub proof fn lemma_parse_rate_members_bounds(s: Seq<char>, i: int, acc: Entries)
    ensures
        parse_rate_members(s, i, acc) matches Some(p) ==> i < p.0 <= s.len(),
    decreases s.len() - i,
{
    lemma_parse_key_bounds(s, i);
    match parse_key(s, i) {
        None => {},
        Some((ke, k)) => {
            lemma_skip_ws_bounds(s, ke);
            let c = skip_ws(s, ke);
            if c < s.len() && s[c] == ':' {
                lemma_skip_ws_bounds(s, c + 1);
                let vs = skip_ws(s, c + 1);
                lemma_parse_number_bounds(s, vs);
                match parse_number(s, vs) {
                    None => {},
                    Some((ve, d)) => {
                        lemma_skip_ws_bounds(s, ve);
                        let t = skip_ws(s, ve);
                        if t < s.len() && s[t] == ',' {
                            lemma_skip_ws_bounds(s, t + 1);
                            lemma_parse_rate_members_bounds(
                                s,
                                skip_ws(s, t + 1),
                                insert_entry(acc, k, d),
                            );
                        }
                    },
                }
            }
        },
    }
}

pub proof fn lemma_parse_rate_object_bounds(s: Seq<char>, i: int)
    ensures
        parse_rate_object(s, i) matches Some(p) ==> i < p.0 <= s.len(),
{
    if 0 <= i < s.len() && s[i] == '{' {
        lemma_skip_ws_bounds(s, i + 1);
        lemma_parse_rate_members_bounds(s, skip_ws(s, i + 1), Seq::empty());
    }
}

/// The members of the top-level object from `i` (at a key) on. `found`
/// carries the decoded `data` member once it has been seen; a second
/// `data` member, or a closing brace without one, fails.
pub open spec fn parse_top_members(s: Seq<char>, i: int, found: Option<Entries>) -> Option<
    (int, Entries),
>
    decreases s.len() - i,
    via parse_top_members_dec
{
    match parse_key(s, i) {
        None => None,
        Some((ke, k)) => {
            let c = skip_ws(s, ke);
            if c < s.len() && s[c] == ':' {
                let vs = skip_ws(s, c + 1);
                let step: Option<(int, Option<Entries>)> = if k == "data"@ {
                    if found is Some {
                        None
                    } else {
                        match parse_rate_object(s, vs) {
                            None => None,
                            Some((ve, m)) => Some((ve, Some(m))),
                        }
                    }
                } else {
                    match skip_value(s, vs) {
                        None => None,
                        Some(ve) => Some((ve, found)),
                    }
                };
                match step {
                    None => None,
                    Some((ve, found2)) => {
                        let t = skip_ws(s, ve);
                        if t < s.len() && s[t] == ',' {
                            parse_top_members(s, skip_ws(s, t + 1), found2)
                        } else if t < s.len() && s[t] == '}' {
                            match found2 {
                                Some(m) => Some((t + 1, m)),
                                None => None,
                            }
                        } else {
                            None
                        }
                    },
                }
            } else {
                None
            }
        },
    }
}

#[via_fn]
proof fn parse_top_members_dec(s: Seq<char>, i: int, found: Option<Entries>) {
    lemma_parse_key_bounds(s, i);
    match parse_key(s, i) {
        None => {},
        Some((ke, k)) => {
            lemma_skip_ws_bounds(s, ke);
            let c = skip_ws(s, ke);
            lemma_skip_ws_bounds(s, c + 1);
            let vs = skip_ws(s, c + 1);
            lemma_parse_rate_object_bounds(s, vs);
            lemma_skip_value_bounds(s, vs);
            match parse_rate_object(s, vs) {
                None => {},
                Some((ve, m)) => {
                    lemma_skip_ws_bounds(s, ve);
                    lemma_skip_ws_bounds(s, skip_ws(s, ve) + 1);
                },
            }
            match skip_value(s, vs) {
                None => {},
                Some(ve) => {
                    lemma_skip_ws_bounds(s, ve);
                    lemma_skip_ws_bounds(s, skip_ws(s, ve) + 1);
                },
            }
        },
    }
}

/// The whole response document: a top-level object that holds a `data`
/// member, with nothing but whitespace around it.
pub open spec fn parse_document(s: Seq<char>) -> Option<Entries> {
    let i = skip_ws(s, 0);
    if i < s.len() && s[i] == '{' {
        let j = skip_ws(s, i + 1);
        if j < s.len() && s[j] == '}' {
            None
        } else {
            match parse_top_members(s, j, None) {
                None => None,
                Some((e, m)) => if skip_ws(s, e) == s.len() {
                    Some(m)
                } else {
                    None
                },
            }
        }
    } else {
        None
    }
}

/// No two entries share a key.
pub open spec fn unique_keys(m: Entries) -> bool {
    forall|i: int, j: int| 0 <= i < j < m.len() ==> m[i].0 != m[j].0
}

pub proof fn lemma_key_idx_matches(m: Entries, k: Seq<char>, j: int)
    requires
        0 <= j < m.len(),
        m[j].0 == k,
        forall|x: int| 0 <= x < j ==> m[x].0 != k,
    ensures
        key_idx(m, k) == j,
    decreases m.len(),
{
    if j == 0 {
    } else {
        assert(m[0].0 != k);
        assert(forall|x: int| 0 <= x < j - 1 ==> m.drop_first()[x] == m[x + 1]);
        lemma_key_idx_matches(m.drop_first(), k, j - 1);
    }
}

pub proof fn lemma_key_idx_none(m: Entries, k: Seq<char>)
    requires
        forall|x: int| 0 <= x < m.len() ==> m[x].0 != k,
    ensures
        key_idx(m, k) == -1,
    decreases m.len(),
{
    if m.len() > 0 {
        assert(forall|x: int| 0 <= x < m.len() - 1 ==> m.drop_first()[x] == m[x + 1]);
        lemma_key_idx_none(m.drop_first(), k);
    }
}

/// The decoded rate table: currency codes and their rates, in document
/// order.
#[derive(Debug)]
pub struct RateMapping {
    entries: Vec<(String, Decimal)>,
}

impl View for RateMapping {
    type V = Entries;

    closed spec fn view(&self) -> Entries {
        Seq::new(self.entries@.len(), |i: int| (self.entries@[i].0@, self.entries@[i].1))
    }
}

impl RateMapping {
    /// An empty table.
    pub fn new() -> (r: RateMapping)
        ensures
            r@ == Seq::<(Seq<char>, Decimal)>::empty(),
    {
        let r = RateMapping { entries: Vec::new() };
        proof {
            assert(r@ =~= Seq::<(Seq<char>, Decimal)>::empty());
        }
        r
    }

    /// How many currencies the table holds.
    pub fn len(&self) -> (l: usize)
        ensures
            l == self@.len(),
    {
        self.entries.len()
    }

    /// The currency code of the entry at `i`.
    pub fn key_at(&self, i: usize) -> (k: String)
        requires
            i < self@.len(),
        ensures
            k@ == self@[i as int].0,
    {
        let p = &self.entries[i];
        p.0.clone()
    }

    /// The rate of the entry at `i`.
    pub fn rate_at(&self, i: usize) -> (d: Decimal)
        requires
            i < self@.len(),
        ensures
            d == self@[i as int].1,
    {
        let p = &self.entries[i];
        p.1
    }

    /// Adds an entry, replacing the value in place when the key is
    /// already present.
    pub fn insert(&mut self, k: String, v: Decimal)
        ensures
            final(self)@ == insert_entry(old(self)@, k@, v),
    {
        let mut idx: usize = 0;
        while idx < self.entries.len()
            invariant
                idx <= self.entries@.len(),
                self == old(self),
                forall|x: int| 0 <= x < idx ==> self@[x].0 != k@,
            decreases self.entries@.len() - idx,
        {
            let hit = {
                let p = &self.entries[idx];
                p.0.eq(&k)
            };
            if hit {
                proof {
                    lemma_key_idx_matches(self@, k@, idx as int);
                }
                self.entries.set(idx, (k, v));
                proof {
                    assert(final(self)@ =~= insert_entry(old(self)@, k@, v));
                }
                return ;
            }
            idx = idx + 1;
        }
        proof {
            lemma_key_idx_none(self@, k@);
        }
        self.entries.push((k, v));
        proof {
            assert(final(self)@ =~= insert_entry(old(self)@, k@, v));
        }
    }
}

/// The inner object of the response, as the document nests it.
#[derive(Debug)]
pub struct CurrenciesRate {
    pub rate: RateMapping,
}

/// The whole decoded response: the rate table under its `data` member.
#[derive(Debug)]
pub struct CurrenciesRatesData {
    pub data: CurrenciesRate,
}

pub(crate) fn e_is_ws(c: char) -> (b: bool)
    ensures
        b == is_ws(c),
{
    c == ' ' || c == '\n' || c == '\t' || c == '\r'
}

fn e_is_digit(c: char) -> (b: bool)
    ensures
        b == is_digit(c),
{
    let u = c as u32;
    48 <= u && u <= 57
}

fn e_is_key_char(c: char) -> (b: bool)
    ensures
        b == is_key_char(c),
{
    c != '"' && c != '\\' && c as u32 >= 32
}

fn e_is_atom_char(c: char) -> (b: bool)
    ensures
        b == is_atom_char(c),
{
    let u = c as u32;
    (48 <= u && u <= 57) || (97 <= u && u <= 122) || (65 <= u && u <= 90) || c == '-' || c == '+'
        || c == '.'
}

fn e_skip_ws(s: &str, n: usize, i: usize) -> (j: usize)
    requires
        n == s@.len(),
        i <= n,
    ensures
        j as int == skip_ws(s@, i as int),
        i <= j <= n,
    decreases n - i,
{
    if i < n {
        let c = s.get_char(i);
        if e_is_ws(c) {
            return e_skip_ws(s, n, i + 1);
        }
    }
    i
}

fn e_key_end(s: &str, n: usize, i: usize) -> (r: Option<usize>)
    requires
        n == s@.len(),
        i <= n,
    ensures
        match r {
            Some(e) => key_end(s@, i as int) == Some(e as int) && i < e <= n,
            None => key_end(s@, i as int) is None,
        },
    decreases n - i,
{
    if i >= n {
        return None;
    }
    let c = s.get_char(i);
    if c == '"' {
        Some(i + 1)
    } else if e_is_key_char(c) {
        e_key_end(s, n, i + 1)
    } else {
        None
    }
}

fn e_str_end(s: &str, n: usize, i: usize) -> (r: Option<usize>)
    requires
        n == s@.len(),
        i <= n,
    ensures
        match r {
            Some(e) => str_end(s@, i as int) == Some(e as int) && i < e <= n,
            None => str_end(s@, i as int) is None,
        },
    decreases n - i,
{
    if i >= n {
        return None;
    }
    let c = s.get_char(i);
    if c == '"' {
        Some(i + 1)
    } else if c == '\\' {
        if i + 1 < n {
            e_str_end(s, n, i + 2)
        } else {
            None
        }
    } else {
        e_str_end(s, n, i + 1)
    }
}

pub(crate) fn e_digits_end(s: &str, n: usize, i: usize) -> (j: usize)
    requires
        n == s@.len(),
        i <= n,
    ensures
        j as int == digits_end(s@, i as int),
        i <= j <= n,
    decreases n - i,
{
    if i < n {
        let c = s.get_char(i);
        if e_is_digit(c) {
            return e_digits_end(s, n, i + 1);
        }
    }
    i
}

fn e_atom_end(s: &str, n: usize, i: usize) -> (j: usize)
    requires
        n == s@.len(),
        i <= n,
    ensures
        j as int == atom_end(s@, i as int),
        i <= j <= n,
    decreases n - i,
{
    if i < n {
        let c = s.get_char(i);
        if e_is_atom_char(c) {
            return e_atom_end(s, n, i + 1);
        }
    }
    i
}

fn e_scan_balance(s: &str, n: usize, i: usize, depth: usize, in_str: bool) -> (r: Option<usize>)
    requires
        n == s@.len(),
        i <= n,
        1 <= depth <= i,
    ensures
        match r {
            Some(e) => scan_balance(s@, i as int, depth as nat, in_str) == Some(e as int) && i < e
                <= n,
            None => scan_balance(s@, i as int, depth as nat, in_str) is None,
        },
    decreases n - i,
{
    if i >= n {
        return None;
    }
    let c = s.get_char(i);
    if in_str {
        if c == '\\' {
            if i + 1 < n {
                e_scan_balance(s, n, i + 2, depth, true)
            } else {
                None
            }
        } else if c == '"' {
            e_scan_balance(s, n, i + 1, depth, false)
        } else {
            e_scan_balance(s, n, i + 1, depth, true)
        }
    } else if c == '"' {
        e_scan_balance(s, n, i + 1, depth, true)
    } else if c == '{' || c == '[' {
        e_scan_balance(s, n, i + 1, depth + 1, false)
    } else if c == '}' || c == ']' {
        if depth == 1 {
            Some(i + 1)
        } else {
            e_scan_balance(s, n, i + 1, depth - 1, false)
        }
    } else {
        e_scan_balance(s, n, i + 1, depth, false)
    }
}

fn e_skip_value(s: &str, n: usize, i: usize) -> (r: Option<usize>)
    requires
        n == s@.len(),
        i <= n,
    ensures
        match r {
            Some(e) => skip_value(s@, i as int) == Some(e as int) && i < e <= n,
            None => skip_value(s@, i as int) is None,
        },
{
    if i >= n {
        return None;
    }
    let c = s.get_char(i);
    if c == '"' {
        e_str_end(s, n, i + 1)
    } else if c == '{' || c == '[' {
        e_scan_balance(s, n, i + 1, 1, false)
    } else if e_is_atom_char(c) {
        proof {
            assert(atom_end(s@, i as int) == atom_end(s@, i as int + 1));
        }
        let e = e_atom_end(s, n, i + 1);
        Some(e)
    } else {
        None
    }
}

fn e_key(s: &str, n: usize, i: usize) -> (r: Option<(usize, String)>)
    requires
        n == s@.len(),
        i <= n,
    ensures
        match r {
            Some(p) => parse_key(s@, i as int) == Some((p.0 as int, p.1@)) && i + 2 <= p.0 <= n,
            None => parse_key(s@, i as int) is None,
        },
{
    if i >= n {
        return None;
    }
    if s.get_char(i) != '"' {
        return None;
    }
    match e_key_end(s, n, i + 1) {
        None => None,
        Some(e) => {
            let sub = s.substring_char(i + 1, e - 1);
            Some((e, sub.to_owned()))
        },
    }
}

/// The value of the digit run `s[j..e]`, when it stays under `10^15`.
pub(crate) fn e_digits_val(s: &str, n: usize, j: usize, e: usize) -> (r: Option<u64>)
    requires
        n == s@.len(),
        j <= e <= n,
        forall|x: int| j <= x < e ==> is_digit(#[trigger] s@[x]),
    ensures
        match r {
            Some(v) => v as nat == digits_val(s@.subrange(j as int, e as int)) && v < pow10(15),
            None => digits_val(s@.subrange(j as int, e as int)) >= pow10(15),
        },
    decreases e,
{
    proof {
        lemma_pow10_32();
    }
    if j == e {
        proof {
            assert(s@.subrange(j as int, j as int) =~= Seq::<char>::empty());
        }
        return Some(0);
    }
    let ghost whole = s@.subrange(j as int, e as int);
    proof {
        assert(whole.drop_last() =~= s@.subrange(j as int, e as int - 1));
        assert(whole.last() == s@[e as int - 1]);
    }
    match e_digits_val(s, n, j, e - 1) {
        None => {
            proof {
                let prev = digits_val(s@.subrange(j as int, e as int - 1));
                assert(digits_val(whole) == prev * 10 + digit_val(whole.last()));
                assert(prev * 10 >= prev);
            }
            None
        },
        Some(v) => {
            let c = s.get_char(e - 1);
            let d = (c as u32 - 48) as u64;
            proof {
                assert(is_digit(s@[e as int - 1]));
                assert(digit_val(whole.last()) == d as nat);
            }
            let next = v * 10 + d;
            proof {
                assert(digits_val(whole) == (v as nat) * 10 + digit_val(whole.last()));
            }
            if next >= 1000000000000000 {
                None
            } else {
                Some(next)
            }
        },
    }
}

fn e_number(s: &str, n: usize, i: usize) -> (r: Option<(usize, Decimal)>)
    requires
        n == s@.len(),
        i <= n,
    ensures
        match r {
            Some(p) => parse_number(s@, i as int) == Some((p.0 as int, p.1)) && i < p.0 <= n,
            None => parse_number(s@, i as int) is None,
        },
{
    proof {
        lemma_pow10_32();
    }
    let (neg, j) = if i < n && s.get_char(i) == '-' {
        (true, i + 1)
    } else {
        (false, i)
    };
    if j >= n {
        return None;
    }
    let c0 = s.get_char(j);
    if !e_is_digit(c0) {
        return None;
    }
    let ie = e_digits_end(s, n, j);
    proof {
        lemma_digits_end_chars(s@, j as int);
        assert(digits_end(s@, j as int) == digits_end(s@, j as int + 1));
        lemma_digits_end_bounds(s@, j as int + 1);
    }
    if c0 == '0' && ie != j + 1 {
        return None;
    }
    if ie < n && s.get_char(ie) == '.' {
        let fe = e_digits_end(s, n, ie + 1);
        proof {
            lemma_digits_end_chars(s@, ie as int + 1);
        }
        if fe == ie + 1 {
            return None;
        }
        let ghost digs = s@.subrange(j as int, ie as int) + s@.subrange(ie as int + 1, fe as int);
        let scale = fe - ie - 1;
        proof {
            crate::decimal::lemma_digits_val_concat(
                s@.subrange(j as int, ie as int),
                s@.subrange(ie as int + 1, fe as int),
            );
            crate::decimal::lemma_pow10_pos((fe - ie - 1) as nat);
        }
        let iv = e_digits_val(s, n, j, ie);
        let fv = e_digits_val(s, n, ie + 1, fe);
        let ghost ipart = digits_val(s@.subrange(j as int, ie as int));
        let ghost fpart = digits_val(s@.subrange(ie as int + 1, fe as int));
        proof {
            assert(digits_val(digs) == ipart * pow10((fe - ie - 1) as nat) + fpart);
            assert(ipart * pow10((fe - ie - 1) as nat) >= ipart * 1) by (nonlinear_arith)
                requires
                    pow10((fe - ie - 1) as nat) >= 1 && ipart >= 0,
            ;
        }
        match (iv, fv) {
            (Some(va), Some(vb)) => {
                if scale > 15 {
                    return None;
                }
                proof {
                    crate::decimal::lemma_pow10_mono((fe - ie - 1) as nat, 15);
                    assert((va as nat) * pow10((fe - ie - 1) as nat) <= (va as nat) * pow10(15))
                        by (nonlinear_arith)
                        requires
                            pow10((fe - ie - 1) as nat) <= pow10(15) && (va as nat) >= 0,
                    ;
                    assert((va as nat) * pow10(15) < pow10(15) * pow10(15)) by (nonlinear_arith)
                        requires
                            (va as nat) < pow10(15) && pow10(15) >= 1,
                    ;
                    crate::decimal::lemma_pow10_adds(15, 15);
                    reveal_with_fuel(crate::decimal::pow10, 33);
                }
                let p10 = crate::decimal::pow10_u128(scale as u32);
                let total = (va as u128) * p10 + (vb as u128);
                proof {
                    assert(total as nat == digits_val(digs));
                }
                if total >= 1000000000000000 {
                    None
                } else {
                    Some(
                        (
                            fe,
                            Decimal { neg, mantissa: total as u64, scale: scale as u32 },
                        ),
                    )
                }
            },
            _ => {
                proof {
                    assert(digits_val(digs) >= pow10(15));
                }
                None
            },
        }
    } else {
        match e_digits_val(s, n, j, ie) {
            None => None,
            Some(v) => Some((ie, Decimal { neg, mantissa: v, scale: 0 })),
        }
    }
}

pub proof fn lemma_digits_end_chars(s: Seq<char>, i: int)
    requires
        0 <= i,
    ensures
        forall|x: int| i <= x < digits_end(s, i) ==> is_digit(#[trigger] s[x]),
    decreases s.len() - i,
{
    if 0 <= i < s.len() && is_digit(s[i]) {
        lemma_digits_end_chars(s, i + 1);
    }
}

/// The table a carried `data` member holds, if one was seen.
pub open spec fn found_view(f: Option<RateMapping>) -> Option<Entries> {
    match f {
        Some(m) => Some(m@),
        None => None,
    }
}

fn e_rate_members(s: &str, n: usize, i: usize, acc: RateMapping) -> (r: Option<
    (usize, RateMapping),
>)
    requires
        n == s@.len(),
        i <= n,
    ensures
        match r {
            Some(p) => parse_rate_members(s@, i as int, acc@) == Some((p.0 as int, p.1@)) && i
                < p.0 <= n,
            None => parse_rate_members(s@, i as int, acc@) is None,
        },
    decreases n - i,
{
    match e_key(s, n, i) {
        None => None,
        Some((ke, k)) => {
            let c = e_skip_ws(s, n, ke);
            if c < n && s.get_char(c) == ':' {
                let vs = e_skip_ws(s, n, c + 1);
                match e_number(s, n, vs) {
                    None => None,
                    Some((ve, d)) => {
                        let mut acc2 = acc;
                        acc2.insert(k, d);
                        let t = e_skip_ws(s, n, ve);
                        if t < n && s.get_char(t) == ',' {
                            let next = e_skip_ws(s, n, t + 1);
                            e_rate_members(s, n, next, acc2)
                        } else if t < n && s.get_char(t) == '}' {
                            Some((t + 1, acc2))
                        } else {
                            None
                        }
                    },
                }
            } else {
                None
            }
        },
    }
}

fn e_rate_object(s: &str, n: usize, i: usize) -> (r: Option<(usize, RateMapping)>)
    requires
        n == s@.len(),
        i <= n,
    ensures
        match r {
            Some(p) => parse_rate_object(s@, i as int) == Some((p.0 as int, p.1@)) && i < p.0
                <= n,
            None => parse_rate_object(s@, i as int) is None,
        },
{
    if i < n && s.get_char(i) == '{' {
        let j = e_skip_ws(s, n, i + 1);
        if j < n && s.get_char(j) == '}' {
            Some((j + 1, RateMapping::new()))
        } else {
            e_rate_members(s, n, j, RateMapping::new())
        }
    } else {
        None
    }
}

fn e_top_members(s: &str, n: usize, i: usize, found: Option<RateMapping>) -> (r: Option<
    (usize, RateMapping),
>)
    requires
        n == s@.len(),
        i <= n,
    ensures
        match r {
            Some(p) => parse_top_members(s@, i as int, found_view(found)) == Some(
                (p.0 as int, p.1@),
            ) && i < p.0 <= n,
            None => parse_top_members(s@, i as int, found_view(found)) is None,
        },
    decreases n - i,
{
    match e_key(s, n, i) {
        None => None,
        Some((ke, k)) => {
            let c = e_skip_ws(s, n, ke);
            if c < n && s.get_char(c) == ':' {
                let vs = e_skip_ws(s, n, c + 1);
                let data_name = "data".to_owned();
                let is_data = k.eq(&data_name);
                let step: Option<(usize, Option<RateMapping>)> = if is_data {
                    if found.is_some() {
                        None
                    } else {
                        match e_rate_object(s, n, vs) {
                            None => None,
                            Some((ve, m)) => Some((ve, Some(m))),
                        }
                    }
                } else {
                    match e_skip_value(s, n, vs) {
                        None => None,
                        Some(ve) => Some((ve, found)),
                    }
                };
                match step {
                    None => None,
                    Some((ve, found2)) => {
                        let t = e_skip_ws(s, n, ve);
                        if t < n && s.get_char(t) == ',' {
                            let next = e_skip_ws(s, n, t + 1);
                            e_top_members(s, n, next, found2)
                        } else if t < n && s.get_char(t) == '}' {
                            match found2 {
                                Some(m) => Some((t + 1, m)),
                                None => None,
                            }
                        } else {
                            None
                        }
                    },
                }
            } else {
                None
            }
        },
    }
}

/// Decodes a response body. On any document the grammar rejects, the
/// error is a decode failure with the fixed message below; otherwise the
/// result holds exactly the entries of the `data` object, in document
/// order, with a later duplicate key replacing the earlier value.
pub fn parse_json(body: String) -> (r: Result<CurrenciesRatesData, ApiError>)
    ensures
        parse_document(body@) matches Some(m) ==> (r matches Ok(d) && d.data.rate@ == m
            && all_wf(d.data.rate@)),
        parse_document(body@) is None ==> (r matches Err(e) && e.code
            == ApiErrorType::DecodeFailure && e.message@
            == "Failed to parse JSON: invalid JSON document"@),
{
    proof {
        lemma_parse_document_wf(body@);
    }
    let s = body.as_str();
    let n = s.unicode_len();
    let i = e_skip_ws(s, n, 0);
    let mut ok: Option<RateMapping> = None;
    if i < n && s.get_char(i) == '{' {
        let j = e_skip_ws(s, n, i + 1);
        if j < n && s.get_char(j) == '}' {
        } else {
            match e_top_members(s, n, j, None) {
                None => {},
                Some((e, m)) => {
                    let t = e_skip_ws(s, n, e);
                    if t == n {
                        ok = Some(m);
                    }
                },
            }
        }
    }
    match ok {
        Some(m) => Ok(CurrenciesRatesData { data: CurrenciesRate { rate: m } }),
        None => Err(
            ApiError {
                code: ApiErrorType::DecodeFailure,
                message: String::from_str("Failed to parse JSON: invalid JSON document"),
            },
        ),
    }
}

/// One encoded entry: `"CODE":rate`.
pub open spec fn encode_entry(k: Seq<char>, d: Decimal) -> Seq<char> {
    seq!['"'] + k + seq!['"', ':'] + d.spec_chars()
}

/// The encoded entries, comma-separated, in order.
pub open spec fn encode_entries(m: Entries) -> Seq<char>
    decreases m.len(),
{
    if m.len() == 0 {
        Seq::empty()
    } else if m.len() == 1 {
        encode_entry(m[0].0, m[0].1)
    } else {
        encode_entry(m[0].0, m[0].1) + seq![','] + encode_entries(m.drop_first())
    }
}

/// The canonical document for a rate table: `{"data":{...}}` with no
/// whitespace.
pub open spec fn spec_encode(m: Entries) -> Seq<char> {
    seq!['{', '"', 'd', 'a', 't', 'a', '"', ':', '{'] + encode_entries(m) + seq!['}', '}']
}

fn e_encode_tail(out: &mut String, m: &RateMapping, i: usize)
    requires
        i <= m@.len(),
        forall|x: int| 0 <= x < m@.len() ==> (#[trigger] m@[x].1).wf(),
    ensures
        final(out)@ == old(out)@ + encode_entries(m@.skip(i as int)),
    decreases m@.len() - i,
{
    if i == m.len() {
        proof {
            assert(m@.skip(i as int) =~= Seq::<(Seq<char>, Decimal)>::empty());
            assert(out@ + encode_entries(m@.skip(i as int)) =~= out@);
        }
        return ;
    }
    let ghost rest = m@.skip(i as int);
    proof {
        assert(rest[0] == m@[i as int]);
        assert(rest.drop_first() =~= m@.skip(i as int + 1));
    }
    let k = m.key_at(i);
    let d = m.rate_at(i);
    out.append("\"");
    out.append(k.as_str());
    out.append("\":");
    let ds = d.to_display();
    out.append(ds.as_str());
    proof {
        reveal_strlit("\"");
        reveal_strlit("\":");
        assert("\""@ =~= seq!['"']);
        assert("\":"@ =~= seq!['"', ':']);
        assert(out@ =~= old(out)@ + encode_entry(m@[i as int].0, m@[i as int].1));
    }
    if i + 1 < m.len() {
        out.append(",");
        proof {
            reveal_strlit(",");
            assert(","@ =~= seq![',']);
        }
        e_encode_tail(out, m, i + 1);
        proof {
            assert(encode_entries(rest) == encode_entry(rest[0].0, rest[0].1) + seq![',']
                + encode_entries(rest.drop_first()));
            assert(out@ =~= old(out)@ + encode_entries(rest));
        }
    } else {
        proof {
            assert(rest.len() == 1);
            assert(encode_entries(rest) == encode_entry(rest[0].0, rest[0].1));
            assert(out@ =~= old(out)@ + encode_entries(rest));
        }
    }
}

/// Writes the canonical `{"data":{...}}` document for a rate table.
pub fn encode_document(m: &RateMapping) -> (r: String)
    requires
        forall|x: int| 0 <= x < m@.len() ==> (#[trigger] m@[x].1).wf(),
    ensures
        r@ == spec_encode(m@),
{
    let mut out = String::from_str("{\"data\":{");
    proof {
        reveal_strlit("{\"data\":{");
        assert("{\"data\":{"@ =~= seq!['{', '"', 'd', 'a', 't', 'a', '"', ':', '{']);
    }
    e_encode_tail(&mut out, m, 0);
    out.append("}}");
    proof {
        reveal_strlit("}}");
        assert("}}"@ =~= seq!['}', '}']);
        assert(m@.skip(0) =~= m@);
        assert(out@ =~= spec_encode(m@));
    }
    out
}

/// Every rate in the table is well formed.
pub open spec fn all_wf(m: Entries) -> bool {
    forall|i: int| 0 <= i < m.len() ==> (#[trigger] m[i].1).wf()
}

/// Every character of every key can be written in a key string as it is.
pub open spec fn keys_encodable(m: Entries) -> bool {
    forall|i: int, j: int|
        0 <= i < m.len() && 0 <= j < m[i].0.len() ==> is_key_char(#[trigger] m[i].0[j])
}

pub proof fn lemma_key_idx_range(m: Entries, k: Seq<char>)
    ensures
        key_idx(m, k) == -1 || (0 <= key_idx(m, k) < m.len() && m[key_idx(m, k)].0 == k),
    decreases m.len(),
{
    if m.len() > 0 && m.first().0 != k {
        lemma_key_idx_range(m.drop_first(), k);
    }
}

pub proof fn lemma_insert_all_wf(m: Entries, k: Seq<char>, v: Decimal)
    requires
        all_wf(m),
        v.wf(),
    ensures
        all_wf(insert_entry(m, k, v)),
{
    lemma_key_idx_range(m, k);
}

pub proof fn lemma_parse_number_wf(s: Seq<char>, i: int)
    requires
        0 <= i,
    ensures
        parse_number(s, i) matches Some(p) ==> p.1.wf(),
{
    lemma_pow10_32();
    let j = if 0 <= i < s.len() && s[i] == '-' {
        i + 1
    } else {
        i
    };
    lemma_digits_end_bounds(s, j);
    if j < s.len() && is_digit(s[j]) {
        let ie = digits_end(s, j);
        if ie < s.len() && s[ie] == '.' {
            lemma_digits_end_bounds(s, ie + 1);
        }
    }
}

pub proof fn lemma_parse_rate_members_wf(s: Seq<char>, i: int, acc: Entries)
    requires
        all_wf(acc),
    ensures
        parse_rate_members(s, i, acc) matches Some(p) ==> all_wf(p.1),
    decreases s.len() - i,
{
    lemma_parse_key_bounds(s, i);
    match parse_key(s, i) {
        None => {},
        Some((ke, k)) => {
            lemma_skip_ws_bounds(s, ke);
            let c = skip_ws(s, ke);
            if c < s.len() && s[c] == ':' {
                lemma_skip_ws_bounds(s, c + 1);
                let vs = skip_ws(s, c + 1);
                lemma_parse_number_bounds(s, vs);
                lemma_parse_number_wf(s, vs);
                match parse_number(s, vs) {
                    None => {},
                    Some((ve, d)) => {
                        lemma_insert_all_wf(acc, k, d);
                        lemma_skip_ws_bounds(s, ve);
                        let t = skip_ws(s, ve);
                        if t < s.len() && s[t] == ',' {
                            lemma_skip_ws_bounds(s, t + 1);
                            lemma_parse_rate_members_wf(
                                s,
                                skip_ws(s, t + 1),
                                insert_entry(acc, k, d),
                            );
                        }
                    },
                }
            }
        },
    }
}

pub proof fn lemma_parse_top_members_wf(s: Seq<char>, i: int, found: Option<Entries>)
    requires
        found matches Some(m0) ==> all_wf(m0),
    ensures
        parse_top_members(s, i, found) matches Some(p) ==> all_wf(p.1),
    decreases s.len() - i,
{
    lemma_parse_key_bounds(s, i);
    match parse_key(s, i) {
        None => {},
        Some((ke, k)) => {
            lemma_skip_ws_bounds(s, ke);
            let c = skip_ws(s, ke);
            if c < s.len() && s[c] == ':' {
                lemma_skip_ws_bounds(s, c + 1);
                let vs = skip_ws(s, c + 1);
                if 0 <= vs < s.len() && s[vs] == '{' {
                    lemma_skip_ws_bounds(s, vs + 1);
                    lemma_parse_rate_members_wf(s, skip_ws(s, vs + 1), Seq::empty());
                }
                lemma_parse_rate_object_bounds(s, vs);
                lemma_skip_value_bounds(s, vs);
                let step: Option<(int, Option<Entries>)> = if k == "data"@ {
                    if found is Some {
                        None
                    } else {
                        match parse_rate_object(s, vs) {
                            None => None,
                            Some((ve, m)) => Some((ve, Some(m))),
                        }
                    }
                } else {
                    match skip_value(s, vs) {
                        None => None,
                        Some(ve) => Some((ve, found)),
                    }
                };
                match step {
                    None => {},
                    Some((ve, found2)) => {
                        lemma_skip_ws_bounds(s, ve);
                        let t = skip_ws(s, ve);
                        if t < s.len() && s[t] == ',' {
                            lemma_skip_ws_bounds(s, t + 1);
                            lemma_parse_top_members_wf(s, skip_ws(s, t + 1), found2);
                        }
                    },
                }
            }
        },
    }
}

/// Every rate table the document grammar yields is well formed.
pub proof fn lemma_parse_document_wf(s: Seq<char>)
    ensures
        parse_document(s) matches Some(m) ==> all_wf(m),
{
    let i = skip_ws(s, 0);
    if 0 <= i < s.len() && s[i] == '{' {
        lemma_skip_ws_bounds(s, 0);
        lemma_skip_ws_bounds(s, i + 1);
        lemma_parse_top_members_wf(s, skip_ws(s, i + 1), None);
    }
}

proof fn lemma_key_end_run(s: Seq<char>, j: int, r: int)
    requires
        0 <= j,
        r >= 0,
        j + r + 1 <= s.len(),
        forall|x: int| j <= x < j + r ==> is_key_char(#[trigger] s[x]),
        s[j + r] == '"',
    ensures
        key_end(s, j) == Some(j + r + 1),
    decreases r,
{
    if r == 0 {
    } else {
        assert(is_key_char(s[j]));
        lemma_key_end_run(s, j + 1, r - 1);
    }
}

proof fn lemma_digits_end_run(s: Seq<char>, j: int, r: int)
    requires
        0 <= j,
        r >= 0,
        j + r <= s.len(),
        forall|x: int| j <= x < j + r ==> is_digit(#[trigger] s[x]),
        j + r == s.len() || !is_digit(s[j + r]),
    ensures
        digits_end(s, j) == j + r,
    decreases r,
{
    if r > 0 {
        lemma_digits_end_run(s, j + 1, r - 1);
    }
}

proof fn lemma_skip_ws_stop(s: Seq<char>, i: int)
    requires
        0 <= i,
        i == s.len() || !is_ws(s[i]),
    ensures
        skip_ws(s, i) == i,
{
}

/// Parsing an encoded decimal at its place in a larger document gives
/// back exactly that decimal.
#[verifier::rlimit(100)]
#[verifier::spinoff_prover]
proof fn lemma_parse_number_encoded(s: Seq<char>, i: int, d: Decimal)
    requires
        0 <= i,
        d.wf(),
        i + d.spec_chars().len() < s.len(),
        s.subrange(i, i + d.spec_chars().len()) == d.spec_chars(),
        !is_digit(s[i + d.spec_chars().len()]),
        s[i + d.spec_chars().len()] != '.',
        s[i + d.spec_chars().len()] != '-',
    ensures
        parse_number(s, i) == Some((i + d.spec_chars().len(), d)),
{
    crate::decimal::lemma_pow10_32();
    let ch = d.spec_chars();
    let len = ch.len() as int;
    let e = i + len;
    let body = crate::decimal::spec_decimal_chars(d.mantissa as nat, d.scale as nat);
    let sign: Seq<char> = if d.neg {
        seq!['-']
    } else {
        Seq::empty()
    };
    assert(ch == sign + body);
    let so = sign.len() as int;
    let m = d.mantissa as nat;
    let sc = d.scale as nat;
    let q: nat = if sc == 0 {
        m
    } else {
        m / pow10(sc)
    };
    let w = crate::decimal::spec_whole(q);
    let wl = w.len() as int;
    crate::decimal::lemma_spec_digits(q);
    assert(w.len() >= 1);
    let pad = crate::decimal::spec_padded((m % pow10(sc)) as nat, sc);
    if sc == 0 {
        assert(body == w);
    } else {
        crate::decimal::lemma_pow10_pos(sc);
        crate::decimal::lemma_spec_digits_len((m % pow10(sc)) as nat, sc);
        crate::decimal::lemma_spec_padded((m % pow10(sc)) as nat, sc);
        assert(body == w + seq!['.'] + pad);
        assert(pad.len() == sc);
    }
    assert(len == so + body.len());
    // each character of the slice, seen through `s`
    assert forall|x: int| i <= x < e implies #[trigger] s[x] == ch[x - i] by {
        assert(s.subrange(i, e)[x - i] == s[x]);
    }
    // digits of the whole part
    assert forall|x: int| 0 <= x < wl implies is_digit(#[trigger] w[x]) by {
        if q == 0 {
            assert(w == seq!['0']);
        }
    }
    let j = i + so;
    assert forall|x: int| j <= x < j + wl implies is_digit(#[trigger] s[x]) by {
        assert(s[x] == ch[x - i]);
        assert(ch[x - i] == body[x - i - so]);
        assert(body[x - i - so] == w[x - j]);
    }
    if d.neg {
        assert(s[i] == ch[0]);
        assert(ch[0] == '-');
    } else {
        assert(s[i] == ch[0]);
        assert(ch[0] == body[0]);
        assert(body[0] == w[0]);
        assert(is_digit(s[i]));
        assert(s[i] != '-') by {
            assert('-' as u32 == 45);
        }
    }
    assert(digits_val(w) == q) by {
        if q == 0 {
            assert(w == seq!['0']);
            assert(w.drop_last() =~= Seq::<char>::empty());
            assert(digit_val('0') == 0);
        }
    }
    if sc == 0 {
        assert(j + wl == e);
        lemma_digits_end_run(s, j, wl);
        assert(digits_end(s, j) == e);
        if s[j] == '0' {
            assert(s[j] == w[0]);
            if q != 0 {
                assert(w == crate::decimal::spec_digits(q));
                assert(w[0] != '0');
            }
            assert(q == 0);
            assert(wl == 1);
        }
        assert forall|x: int| 0 <= x < wl implies s.subrange(j, e)[x] == w[x] by {
            assert(s[j + x] == ch[j + x - i]);
            assert(ch[j + x - i] == body[x]);
        }
        assert(s.subrange(j, e) =~= w);
        assert(parse_number(s, i) == Some((e, d)));
    } else {
        let ie = j + wl;
        assert(s[ie] == ch[ie - i]);
        assert(ch[ie - i] == body[wl]);
        assert(body[wl] == '.');
        assert(!is_digit('.')) by {
            assert('.' as u32 == 46);
        }
        lemma_digits_end_run(s, j, wl);
        assert(digits_end(s, j) == ie);
        if s[j] == '0' {
            assert(s[j] == w[0]);
            if q != 0 {
                assert(w == crate::decimal::spec_digits(q));
                assert(w[0] != '0');
            }
            assert(wl == 1);
        }
        assert forall|x: int| ie + 1 <= x < ie + 1 + sc implies is_digit(#[trigger] s[x]) by {
            assert(s[x] == ch[x - i]);
            assert(ch[x - i] == body[x - i - so]);
            assert(body[x - i - so] == pad[x - ie - 1]);
        }
        assert(ie + 1 + sc == e);
        lemma_digits_end_run(s, ie + 1, sc as int);
        let fe = ie + 1 + sc;
        assert(digits_end(s, ie + 1) == fe);
        assert(fe != ie + 1);
        assert forall|x: int| 0 <= x < wl implies s.subrange(j, ie)[x] == w[x] by {
            assert(s[j + x] == ch[j + x - i]);
            assert(ch[j + x - i] == body[x]);
        }
        assert(s.subrange(j, ie) =~= w);
        assert forall|x: int| 0 <= x < sc implies s.subrange(ie + 1, fe)[x] == pad[x] by {
            assert(s[ie + 1 + x] == ch[ie + 1 + x - i]);
            assert(ch[ie + 1 + x - i] == body[ie + 1 + x - i - so]);
            assert(body[ie + 1 + x - i - so] == pad[x]);
        }
        assert(s.subrange(ie + 1, fe) =~= pad);
        let digs = s.subrange(j, ie) + s.subrange(ie + 1, fe);
        crate::decimal::lemma_digits_val_concat(w, pad);
        assert(digits_val(pad) == m % pow10(sc));
        assert(digits_val(digs) == q * pow10(sc) + m % pow10(sc));
        assert(m == pow10(sc) * (m / pow10(sc)) + m % pow10(sc)) by {
            vstd::arithmetic::div_mod::lemma_fundamental_div_mod(m as int, pow10(sc) as int);
        }
        assert(q * pow10(sc) == pow10(sc) * q) by (nonlinear_arith);
        assert(digits_val(digs) == m);
        assert(fe - ie - 1 == sc);
        assert(parse_number(s, i) == Some((e, d)));
    }
}

proof fn lemma_key_idx_append_none(m: Entries, e: (Seq<char>, Decimal), k: Seq<char>)
    requires
        key_idx(m, k) == -1,
        e.0 != k,
    ensures
        key_idx(m.push(e), k) == -1,
    decreases m.len(),
{
    if m.len() == 0 {
        assert(m.push(e).first().0 == e.0);
        assert(m.push(e).drop_first() =~= Seq::<(Seq<char>, Decimal)>::empty());
        assert(key_idx(m.push(e).drop_first(), k) == -1);
    } else {
        assert(m.push(e).first() == m.first());
        assert(m.push(e).drop_first() =~= m.drop_first().push(e));
        lemma_key_idx_range(m.drop_first(), k);
        lemma_key_idx_append_none(m.drop_first(), e, k);
    }
}

/// Parsing the encoded entries at their place in a larger document
/// appends exactly those entries.
#[verifier::rlimit(100)]
#[verifier::spinoff_prover]
proof fn lemma_parse_members_encoded(s: Seq<char>, i: int, rest: Entries, acc: Entries)
    requires
        rest.len() >= 1,
        0 <= i,
        i + encode_entries(rest).len() < s.len(),
        s.subrange(i, i + encode_entries(rest).len()) == encode_entries(rest),
        s[i + encode_entries(rest).len()] == '}',
        all_wf(rest),
        keys_encodable(rest),
        unique_keys(rest),
        forall|x: int| 0 <= x < rest.len() ==> key_idx(acc, #[trigger] rest[x].0) == -1,
    ensures
        parse_rate_members(s, i, acc) == Some(
            (i + encode_entries(rest).len() + 1, acc + rest),
        ),
    decreases rest.len(),
{
    let enc = encode_entries(rest);
    let t_all = enc.len() as int;
    assert forall|x: int| i <= x < i + t_all implies #[trigger] s[x] == enc[x - i] by {
        assert(s.subrange(i, i + t_all)[x - i] == s[x]);
    }
    let e0 = rest[0];
    let k0 = e0.0;
    let d0 = e0.1;
    assert(e0 == (k0, d0));
    let kl = k0.len() as int;
    let dch = d0.spec_chars();
    let dl = dch.len() as int;
    let ent = encode_entry(k0, d0);
    let el = ent.len() as int;
    assert(el == kl + 3 + dl);
    if rest.len() == 1 {
        assert(enc == ent);
    } else {
        assert(enc == ent + seq![','] + encode_entries(rest.drop_first()));
    }
    assert forall|x: int| 0 <= x < el implies enc[x] == ent[x] by {
    }
    // the key
    assert(s[i] == enc[0]);
    assert(ent[0] == '"');
    assert forall|x: int| 0 <= x < kl implies ent[1 + x] == k0[x] by {
    }
    assert(forall|x: int| 0 <= x < kl ==> is_key_char(#[trigger] k0[x]));
    assert forall|x: int| i + 1 <= x < i + 1 + kl implies is_key_char(#[trigger] s[x]) by {
        assert(s[x] == enc[x - i]);
        assert(enc[x - i] == ent[x - i]);
        assert(ent[x - i] == k0[x - i - 1]);
    }
    assert(s[i + 1 + kl] == enc[1 + kl]);
    assert(ent[1 + kl] == '"');
    assert(s[i + 1 + kl] == '"');
    lemma_key_end_run(s, i + 1, kl);
    assert(key_end(s, i + 1) == Some(i + kl + 2));
    let ke = i + kl + 2;
    assert(parse_key(s, i) == Some((ke, s.subrange(i + 1, ke - 1))));
    assert forall|x: int| 0 <= x < kl implies s.subrange(i + 1, ke - 1)[x] == k0[x] by {
        assert(s[i + 1 + x] == enc[1 + x]);
        assert(enc[1 + x] == ent[1 + x]);
        assert(ent[1 + x] == k0[x]);
    }
    assert(s.subrange(i + 1, ke - 1) =~= k0);
    // the colon
    assert(s[ke] == enc[kl + 2]);
    assert(ent[kl + 2] == ':');
    assert(s[ke] == ':');
    assert(!is_ws(':')) by {
        assert(':' as u32 == 58);
    }
    lemma_skip_ws_stop(s, ke);
    // the number
    let vs = ke + 1;
    assert forall|x: int| 0 <= x < dl implies s.subrange(vs, vs + dl)[x] == dch[x] by {
        assert(s[vs + x] == enc[kl + 3 + x]);
        assert(enc[kl + 3 + x] == ent[kl + 3 + x]);
        assert(ent[kl + 3 + x] == dch[x]);
    }
    assert(s.subrange(vs, vs + dl) =~= dch);
    let after = s[vs + dl];
    assert(vs + dl == i + el);
    assert(after == ',' || after == '}') by {
        if rest.len() == 1 {
            assert(el == t_all);
        } else {
            assert(s[i + el] == enc[el]);
            assert(enc[el] == ',');
        }
    }
    assert(!is_digit(after) && after != '.' && after != '-' && !is_ws(after)) by {
        assert(',' as u32 == 44 && '}' as u32 == 125);
        assert('.' as u32 == 46 && '-' as u32 == 45);
        assert(' ' as u32 == 32);
    }
    assert(dch[0] == '-' || is_digit(dch[0])) by {
        let m = d0.mantissa as nat;
        let sc = d0.scale as nat;
        if !d0.neg {
            let q: nat = if sc == 0 { m } else { m / pow10(sc) };
            crate::decimal::lemma_spec_digits(q);
            if q == 0 {
                assert(dch[0] == '0');
            } else {
                assert(dch[0] == crate::decimal::spec_digits(q)[0]);
            }
        }
    }
    assert(!is_ws(s[vs]));
    lemma_skip_ws_stop(s, vs);
    lemma_parse_number_encoded(s, vs, d0);
    assert(parse_number(s, vs) == Some((vs + dl, d0)));
    let ve = vs + dl;
    lemma_skip_ws_stop(s, ve);
    // the entry is appended, never replaced
    assert(key_idx(acc, k0) == -1);
    let acc2 = acc.push((k0, d0));
    assert(insert_entry(acc, k0, d0) == acc2);
    if rest.len() == 1 {
        assert(s[ve] == '}');
        assert(s[ve] != ',');
        assert(acc2 =~= acc + rest);
        assert(parse_rate_members(s, i, acc) == Some((ve + 1, acc2)));
    } else {
        assert(s[ve] == ',');
        let rest2 = rest.drop_first();
        let enc2 = encode_entries(rest2);
        assert(forall|x: int| 0 <= x < enc2.len() ==> enc[el + 1 + x] == enc2[x]);
        assert(s[ve + 1] == enc2[0]);
        assert(enc2.len() >= 1) by {
            if rest2.len() == 1 {
                assert(enc2 == encode_entry(rest2[0].0, rest2[0].1));
            }
        }
        assert(enc2[0] == '"') by {
            let entn = encode_entry(rest2[0].0, rest2[0].1);
            if rest2.len() == 1 {
                assert(enc2 == entn);
            } else {
                assert(enc2 == entn + seq![','] + encode_entries(rest2.drop_first()));
            }
            assert(entn[0] == '"');
        }
        assert(!is_ws('"')) by {
            assert('"' as u32 == 34);
        }
        lemma_skip_ws_stop(s, ve + 1);
        let ni = ve + 1;
        assert(s.subrange(ni, ni + enc2.len()) =~= enc2);
        assert(ni + enc2.len() == i + t_all);
        assert(s[ni + enc2.len()] == '}');
        assert forall|x: int| 0 <= x < rest2.len() implies key_idx(
            acc2,
            #[trigger] rest2[x].0,
        ) == -1 by {
            assert(rest2[x].0 == rest[x + 1].0);
            assert(key_idx(acc, rest[x + 1].0) == -1);
            assert(rest[x + 1].0 != k0);
            lemma_key_idx_append_none(acc, (k0, d0), rest[x + 1].0);
        }
        assert(all_wf(rest2) && keys_encodable(rest2) && unique_keys(rest2)) by {
            assert(forall|x: int| 0 <= x < rest2.len() ==> #[trigger] rest2[x] == rest[x + 1]);
        }
        lemma_parse_members_encoded(s, ni, rest2, acc2);
        assert(acc2 + rest2 =~= acc + rest);
        assert(parse_rate_members(s, i, acc) == Some((i + t_all + 1, acc + rest)));
    }
}

/// Encoding a well-formed rate table and parsing the document back gives
/// exactly the same entries: the round trip of the wire format.
#[verifier::rlimit(100)]
#[verifier::spinoff_prover]
pub proof fn lemma_encode_parse_round_trip(m: Entries)
    requires
        unique_keys(m),
        keys_encodable(m),
        all_wf(m),
    ensures
        parse_document(spec_encode(m)) == Some(m),
{
    let s = spec_encode(m);
    let head = seq!['{', '"', 'd', 'a', 't', 'a', '"', ':', '{'];
    let enc = encode_entries(m);
    let el = enc.len() as int;
    assert(s.len() == 11 + el);
    assert(forall|x: int| 0 <= x < 9 ==> s[x] == head[x]);
    assert(forall|x: int| 0 <= x < el ==> s[9 + x] == enc[x]);
    assert(s[9 + el] == '}' && s[10 + el] == '}');
    assert(!is_ws('{') && !is_ws('"') && !is_ws(':') && !is_ws('}')) by {
        assert('{' as u32 == 123 && '"' as u32 == 34 && ':' as u32 == 58 && '}' as u32 == 125);
    }
    lemma_skip_ws_stop(s, 0);
    assert(s[0] == '{');
    lemma_skip_ws_stop(s, 1);
    assert(s[1] == '"');
    // the data key
    assert(is_key_char('d') && is_key_char('a') && is_key_char('t')) by {
        assert('d' as u32 == 100 && 'a' as u32 == 97 && 't' as u32 == 116);
    }
    lemma_key_end_run(s, 2, 4);
    assert(key_end(s, 2) == Some(7int));
    assert(parse_key(s, 1) == Some((7int, s.subrange(2, 6))));
    let k = s.subrange(2, 6);
    assert(k =~= seq!['d', 'a', 't', 'a']);
    assert(k == "data"@) by {
        reveal_strlit("data");
        assert("data"@ =~= seq!['d', 'a', 't', 'a']);
    }
    lemma_skip_ws_stop(s, 7);
    assert(s[7] == ':');
    lemma_skip_ws_stop(s, 8);
    assert(s[8] == '{');
    // the rate object
    if m.len() == 0 {
        assert(enc == Seq::<char>::empty());
        assert(s[9] == '}');
        lemma_skip_ws_stop(s, 9);
        assert(parse_rate_object(s, 8) == Some((10int, Seq::<(Seq<char>, Decimal)>::empty())));
        assert(Seq::<(Seq<char>, Decimal)>::empty() =~= m);
        lemma_skip_ws_stop(s, 10);
        assert(s[10] == '}');
        assert(parse_top_members(s, 1, None) == Some((11int, m)));
        lemma_skip_ws_stop(s, 11);
        assert(skip_ws(s, 11) == s.len());
        assert(parse_document(s) == Some(m));
    } else {
        assert(enc[0] == '"') by {
            let ent0 = encode_entry(m[0].0, m[0].1);
            if m.len() == 1 {
                assert(enc == ent0);
            } else {
                assert(enc == ent0 + seq![','] + encode_entries(m.drop_first()));
            }
            assert(ent0[0] == '"');
        }
        assert(s[9] == '"');
        assert(s[9] != '}');
        lemma_skip_ws_stop(s, 9);
        assert(s.subrange(9, 9 + el) =~= enc);
        assert forall|x: int| 0 <= x < m.len() implies key_idx(
            Seq::<(Seq<char>, Decimal)>::empty(),
            #[trigger] m[x].0,
        ) == -1 by {
        }
        lemma_parse_members_encoded(s, 9, m, Seq::<(Seq<char>, Decimal)>::empty());
        assert(Seq::<(Seq<char>, Decimal)>::empty() + m =~= m);
        assert(parse_rate_members(s, 9, Seq::<(Seq<char>, Decimal)>::empty()) == Some((10 + el, m)));
        assert(parse_rate_object(s, 8) == Some((10 + el, m)));
        lemma_skip_ws_stop(s, 10 + el);
        assert(s[10 + el] == '}');
        assert(parse_top_members(s, 1, None) == Some((11 + el, m)));
        lemma_skip_ws_stop(s, 11 + el);
        assert(skip_ws(s, 11 + el) == s.len());
        assert(parse_document(s) == Some(m));
    }
}

} // verus!
