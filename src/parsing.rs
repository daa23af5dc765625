//! From equation text to the terms of each side, grouped by power.
use vstd::prelude::*;
use vstd::string::StringSliceAdditionalSpecFns;

use crate::number::{is_number, number_literal};

verus! {

/// Errors of the text pipeline; the first one met stops it.
#[derive(Debug, PartialEq, Eq)]
pub enum ParseError {
    /// The text does not hold exactly one `=`.
    InvalidEquation,
    /// A side, or a term, holds nothing.
    EmptyValue,
    /// A lone sign, or a numeric factor that is not a real number literal.
    InvalidValue(Vec<u8>),
    /// A variable factor that is neither `X` nor `X^<digits>`.
    InvalidPart(Vec<u8>),
    /// An exponent that is not a number in `0..=255`, or a term whose powers sum past 255.
    InvalidPower(Vec<u8>),
    /// A term whose power is not 0, 1 or 2.
    UnsupportedPower(u8),
}

/// What a [`ParseError`] says, with its texts as byte sequences.
pub enum ParseErrorModel {
    InvalidEquation,
    EmptyValue,
    InvalidValue(Seq<u8>),
    InvalidPart(Seq<u8>),
    InvalidPower(Seq<u8>),
    UnsupportedPower(u8),
}

impl View for ParseError {
    type V = ParseErrorModel;

    open spec fn view(&self) -> ParseErrorModel {
        match self {
            ParseError::InvalidEquation => ParseErrorModel::InvalidEquation,
            ParseError::EmptyValue => ParseErrorModel::EmptyValue,
            ParseError::InvalidValue(v) => ParseErrorModel::InvalidValue(v@),
            ParseError::InvalidPart(v) => ParseErrorModel::InvalidPart(v@),
            ParseError::InvalidPower(v) => ParseErrorModel::InvalidPower(v@),
            ParseError::UnsupportedPower(p) => ParseErrorModel::UnsupportedPower(*p),
        }
    }
}

pub const PLUS: u8 = 43;
pub const MINUS: u8 = 45;
pub const STAR: u8 = 42;
pub const EQUALS: u8 = 61;
pub const CARET: u8 = 94;
pub const VAR: u8 = 88;
pub const DOT: u8 = 46;

/// The byte texts held by a sequence of byte vectors.
pub open spec fn texts(v: Seq<Vec<u8>>) -> Seq<Seq<u8>> {
    Seq::new(v.len(), |i: int| v[i]@)
}

/// A fresh copy of a byte text.
fn copy_of(v: &[u8]) -> (r: Vec<u8>)
    ensures
        r@ == v@,
{
    let mut r: Vec<u8> = Vec::new();
    let mut i: usize = 0;
    while i < v.len()
        invariant
            i <= v@.len(),
            r@ == v@.subrange(0, i as int),
        decreases v@.len() - i,
    {
        r.push(v[i]);
        i = i + 1;
        proof {
            assert(r@ =~= v@.subrange(0, i as int));
        }
    }
    proof {
        assert(v@.subrange(0, i as int) =~= v@);
    }
    r
}

pub open spec fn is_sign(b: u8) -> bool {
    b == PLUS || b == MINUS
}

/// The terms of a side: a sign at any position but the first starts a new term;
/// every other byte extends the current one.
pub open spec fn split_terms(s: Seq<u8>) -> Seq<Seq<u8>>
    decreases s.len(),
{
    if s.len() == 0 {
        seq![Seq::empty()]
    } else {
        let prev = split_terms(s.drop_last());
        if is_sign(s.last()) && s.len() > 1 {
            prev.push(seq![s.last()])
        } else {
            prev.update(prev.len() - 1, prev.last().push(s.last()))
        }
    }
}

pub proof fn lemma_split_terms_nonempty(s: Seq<u8>)
    ensures
        split_terms(s).len() >= 1,
    decreases s.len(),
{
    if s.len() > 0 {
        lemma_split_terms_nonempty(s.drop_last());
    }
}

/// Splits a side (blanks already removed) into its signed terms, each starting
/// at a sign except possibly the first; then rejects empty terms and lone signs.
pub fn parse_values(raw_polynomial: &[u8]) -> (r: Result<Vec<Vec<u8>>, ParseError>)
    ensures
        r is Ok ==> texts(r->Ok_0@) == split_terms(raw_polynomial@),
        match check_terms(split_terms(raw_polynomial@)) {
            Ok(_) => r is Ok,
            Err(e) => r is Err && r->Err_0@ == e,
        },
{
    let mut values: Vec<Vec<u8>> = Vec::new();
    let mut current: Vec<u8> = Vec::new();
    let mut end: usize = 0;
    while end < raw_polynomial.len()
        invariant
            end <= raw_polynomial@.len(),
            texts(values@).push(current@) == split_terms(raw_polynomial@.subrange(0, end as int)),
        decreases raw_polynomial@.len() - end,
    {
        let c = raw_polynomial[end];
        proof {
            let s = raw_polynomial@.subrange(0, end as int + 1);
            assert(s.drop_last() =~= raw_polynomial@.subrange(0, end as int));
            lemma_split_terms_nonempty(s.drop_last());
        }
        if (c == PLUS || c == MINUS) && end > 0 {
            let ghost old_values = texts(values@);
            values.push(current);
            current = Vec::new();
            current.push(c);
            proof {
                assert(texts(values@) =~= old_values.push(values@[values@.len() - 1]@));
                assert(current@ =~= seq![c]);
            }
        } else {
            current.push(c);
        }
        end = end + 1;
    }
    proof {
        assert(raw_polynomial@.subrange(0, end as int) =~= raw_polynomial@);
    }
    let ghost old_values = texts(values@);
    values.push(current);
    proof {
        assert(texts(values@) =~= old_values.push(values@[values@.len() - 1]@));
    }
    match check_value_vec(&values) {
        Ok(()) => Ok(values),
        Err(e) => Err(e),
    }
}

/// What is wrong with a single term, if anything.
pub open spec fn term_fault(t: Seq<u8>) -> Option<ParseErrorModel> {
    if t.len() == 0 {
        Some(ParseErrorModel::EmptyValue)
    } else if t.len() == 1 && is_sign(t[0]) {
        Some(ParseErrorModel::InvalidValue(t))
    } else {
        None
    }
}

/// The fault of the first bad term, in order.
pub open spec fn check_terms(ts: Seq<Seq<u8>>) -> Result<(), ParseErrorModel>
    decreases ts.len(),
{
    if ts.len() == 0 {
        Ok(())
    } else {
        match check_terms(ts.drop_last()) {
            Err(e) => Err(e),
            Ok(_) => match term_fault(ts.last()) {
                Some(e) => Err(e),
                None => Ok(()),
            },
        }
    }
}

/// Once a prefix of the terms has a fault, the whole sequence has the same one.
pub proof fn lemma_check_terms_prefix(ts: Seq<Seq<u8>>, n: int)
    requires
        0 <= n <= ts.len(),
        check_terms(ts.subrange(0, n)) is Err,
    ensures
        check_terms(ts) == check_terms(ts.subrange(0, n)),
    decreases ts.len(),
{
    if n < ts.len() {
        assert(ts.drop_last().subrange(0, n) =~= ts.subrange(0, n));
        lemma_check_terms_prefix(ts.drop_last(), n);
    } else {
        assert(ts.subrange(0, n) =~= ts);
    }
}

/// Rejects the first term that is empty or a lone sign.
pub fn check_value_vec(values: &Vec<Vec<u8>>) -> (r: Result<(), ParseError>)
    ensures
        match check_terms(texts(values@)) {
            Ok(_) => r is Ok,
            Err(e) => r is Err && r->Err_0@ == e,
        },
{
    let mut i: usize = 0;
    while i < values.len()
        invariant
            i <= values@.len(),
            check_terms(texts(values@).subrange(0, i as int)) is Ok,
        decreases values@.len() - i,
    {
        let ghost pre = texts(values@).subrange(0, i as int + 1);
        proof {
            assert(pre.drop_last() =~= texts(values@).subrange(0, i as int));
        }
        let value = &values[i];
        proof {
            assert(pre.last() == value@);
        }
        if value.len() == 0 {
            proof {
                lemma_check_terms_prefix(texts(values@), i as int + 1);
            }
            return Err(ParseError::EmptyValue);
        }
        if value.len() == 1 && (value[0] == PLUS || value[0] == MINUS) {
            proof {
                lemma_check_terms_prefix(texts(values@), i as int + 1);
            }
            return Err(ParseError::InvalidValue(copy_of(value.as_slice())));
        }
        i = i + 1;
    }
    proof {
        assert(texts(values@).subrange(0, i as int) =~= texts(values@));
    }
    Ok(())
}

pub open spec fn is_digit(b: u8) -> bool {
    48 <= b <= 57
}

pub open spec fn all_digits(s: Seq<u8>) -> bool {
    forall|i: int| 0 <= i < s.len() ==> is_digit(#[trigger] s[i])
}

/// The value of a decimal digit string (leading zeros allowed).
pub open spec fn digits_value(s: Seq<u8>) -> nat
    decreases s.len(),
{
    if s.len() == 0 {
        0
    } else {
        digits_value(s.drop_last()) * 10 + (s.last() - 48) as nat
    }
}

/// The power that one variable factor contributes: `X` is 1, `X^<digits>` is the
/// digits' value, which must fit in 0..=255.
pub open spec fn part_power(p: Seq<u8>) -> Result<nat, ParseErrorModel> {
    if p =~= seq![VAR] {
        Ok(1)
    } else if p.len() < 2 || p[0] != VAR || p[1] != CARET {
        Err(ParseErrorModel::InvalidPart(p))
    } else {
        let d = p.subrange(2, p.len() as int);
        if d.len() > 0 && all_digits(d) && digits_value(d) <= 255 {
            Ok(digits_value(d))
        } else {
            Err(ParseErrorModel::InvalidPower(p))
        }
    }
}

/// The sum of the powers of a term's variable factors, or the first fault; a sum
/// past 255 is a fault of the factor that carries it there.
pub open spec fn x_power(parts: Seq<Seq<u8>>) -> Result<nat, ParseErrorModel>
    decreases parts.len(),
{
    if parts.len() == 0 {
        Ok(0)
    } else {
        match x_power(parts.drop_last()) {
            Err(e) => Err(e),
            Ok(p) => match part_power(parts.last()) {
                Err(e) => Err(e),
                Ok(q) => if p + q <= 255 {
                    Ok(p + q)
                } else {
                    Err(ParseErrorModel::InvalidPower(parts.last()))
                },
            },
        }
    }
}

pub proof fn lemma_x_power_prefix(parts: Seq<Seq<u8>>, n: int)
    requires
        0 <= n <= parts.len(),
        x_power(parts.subrange(0, n)) is Err,
    ensures
        x_power(parts) == x_power(parts.subrange(0, n)),
    decreases parts.len(),
{
    if n < parts.len() {
        assert(parts.drop_last().subrange(0, n) =~= parts.subrange(0, n));
        lemma_x_power_prefix(parts.drop_last(), n);
    } else {
        assert(parts.subrange(0, n) =~= parts);
    }
}

/// Reads the power of one variable factor.
fn part_power_of(part: &Vec<u8>) -> (r: Result<u8, ParseError>)
    ensures
        match part_power(part@) {
            Ok(p) => r == Ok::<u8, ParseError>(p as u8),
            Err(e) => r is Err && r->Err_0@ == e,
        },
{
    if part.len() == 1 && part[0] == VAR {
        proof {
            assert(part@ =~= seq![VAR]);
        }
        return Ok(1);
    }
    proof {
        assert(!(part@ =~= seq![VAR]));
    }
    if part.len() < 2 || part[0] != VAR || part[1] != CARET {
        return Err(ParseError::InvalidPart(copy_of(part.as_slice())));
    }
    let ghost d = part@.subrange(2, part@.len() as int);
    // the value read so far, held at 256 once it has passed 255
    let mut value: u32 = 0;
    let mut i: usize = 2;
    while i < part.len()
        invariant
            2 <= i <= part@.len(),
            part@[0] == VAR,
            part@[1] == CARET,
            !(part@ =~= seq![VAR]),
            d == part@.subrange(2, part@.len() as int),
            all_digits(part@.subrange(2, i as int)),
            value as nat == if digits_value(part@.subrange(2, i as int)) <= 256 {
                digits_value(part@.subrange(2, i as int))
            } else {
                256
            },
        decreases part@.len() - i,
    {
        let c = part[i];
        if c < 48 || c > 57 {
            proof {
                assert(d[i - 2] == c);
                assert(!is_digit(d[i - 2]));
                assert(!all_digits(d));
            }
            return Err(ParseError::InvalidPower(copy_of(part.as_slice())));
        }
        let ghost before = part@.subrange(2, i as int);
        let ghost after = part@.subrange(2, i as int + 1);
        proof {
            assert(after.drop_last() =~= before);
            assert(after.last() == c);
            assert(all_digits(after));
            let dv = digits_value(before);
            if dv > 256 {
                assert(dv * 10 + (c - 48) as nat > 256) by (nonlinear_arith)
                    requires
                        dv > 256,
                ;
            }
        }
        let next: u32 = value * 10 + (c - 48) as u32;
        value = if next > 256 {
            256
        } else {
            next
        };
        i = i + 1;
    }
    proof {
        assert(part@.subrange(2, i as int) =~= d);
    }
    if i == 2 || value > 255 {
        return Err(ParseError::InvalidPower(copy_of(part.as_slice())));
    }
    Ok(value as u8)
}

/// The power of a term from its variable factors: each `X` counts 1, each
/// `X^<digits>` counts its exponent, and the counts add up.
pub fn parse_x_part(x_part: &Vec<Vec<u8>>) -> (r: Result<u8, ParseError>)
    ensures
        match x_power(texts(x_part@)) {
            Ok(p) => r == Ok::<u8, ParseError>(p as u8),
            Err(e) => r is Err && r->Err_0@ == e,
        },
{
    let mut power: u8 = 0;
    let mut i: usize = 0;
    while i < x_part.len()
        invariant
            i <= x_part@.len(),
            x_power(texts(x_part@).subrange(0, i as int)) == Ok::<nat, ParseErrorModel>(power as nat),
        decreases x_part@.len() - i,
    {
        let ghost pre = texts(x_part@).subrange(0, i as int + 1);
        proof {
            assert(pre.drop_last() =~= texts(x_part@).subrange(0, i as int));
            assert(pre.last() == x_part@[i as int]@);
        }
        match part_power_of(&x_part[i]) {
            Err(e) => {
                proof {
                    lemma_x_power_prefix(texts(x_part@), i as int + 1);
                }
                return Err(e);
            },
            Ok(q) => {
                if q > 255 - power {
                    proof {
                        lemma_x_power_prefix(texts(x_part@), i as int + 1);
                    }
                    return Err(ParseError::InvalidPower(copy_of(x_part[i].as_slice())));
                }
                power = power + q;
            },
        }
        i = i + 1;
    }
    proof {
        assert(texts(x_part@).subrange(0, i as int) =~= texts(x_part@));
    }
    Ok(power)
}

/// The pieces of a text between separator bytes (one more piece than separators).
pub open spec fn split_on(s: Seq<u8>, sep: u8) -> Seq<Seq<u8>>
    decreases s.len(),
{
    if s.len() == 0 {
        seq![Seq::empty()]
    } else {
        let prev = split_on(s.drop_last(), sep);
        if s.last() == sep {
            prev.push(Seq::empty())
        } else {
            prev.update(prev.len() - 1, prev.last().push(s.last()))
        }
    }
}

pub proof fn lemma_split_on_nonempty(s: Seq<u8>, sep: u8)
    ensures
        split_on(s, sep).len() >= 1,
    decreases s.len(),
{
    if s.len() > 0 {
        lemma_split_on_nonempty(s.drop_last(), sep);
    }
}

/// Splits a text at every separator byte.
pub fn split_bytes(s: &Vec<u8>, sep: u8) -> (r: Vec<Vec<u8>>)
    ensures
        texts(r@) == split_on(s@, sep),
{
    let mut pieces: Vec<Vec<u8>> = Vec::new();
    let mut current: Vec<u8> = Vec::new();
    let mut i: usize = 0;
    while i < s.len()
        invariant
            i <= s@.len(),
            texts(pieces@).push(current@) == split_on(s@.subrange(0, i as int), sep),
        decreases s@.len() - i,
    {
        let c = s[i];
        proof {
            let p = s@.subrange(0, i as int + 1);
            assert(p.drop_last() =~= s@.subrange(0, i as int));
            lemma_split_on_nonempty(p.drop_last(), sep);
        }
        if c == sep {
            let ghost old_pieces = texts(pieces@);
            pieces.push(current);
            current = Vec::new();
            proof {
                assert(texts(pieces@) =~= old_pieces.push(pieces@[pieces@.len() - 1]@));
                assert(current@ =~= Seq::<u8>::empty());
            }
        } else {
            current.push(c);
        }
        i = i + 1;
    }
    proof {
        assert(s@.subrange(0, i as int) =~= s@);
    }
    let ghost old_pieces = texts(pieces@);
    pieces.push(current);
    proof {
        assert(texts(pieces@) =~= old_pieces.push(pieces@[pieces@.len() - 1]@));
    }
    pieces
}

/// A factor is a variable factor when it holds the variable marker.
pub open spec fn has_var(f: Seq<u8>) -> bool {
    f.contains(VAR)
}

fn holds_var(f: &Vec<u8>) -> (r: bool)
    ensures
        r == has_var(f@),
{
    let mut i: usize = 0;
    while i < f.len()
        invariant
            i <= f@.len(),
            forall|j: int| 0 <= j < i ==> f@[j] != VAR,
        decreases f@.len() - i,
    {
        if f[i] == VAR {
            return true;
        }
        i = i + 1;
    }
    false
}

/// The factors without the variable marker, in order.
pub open spec fn numeric_factors(fs: Seq<Seq<u8>>) -> Seq<Seq<u8>>
    decreases fs.len(),
{
    if fs.len() == 0 {
        fs
    } else if has_var(fs.last()) {
        numeric_factors(fs.drop_last())
    } else {
        numeric_factors(fs.drop_last()).push(fs.last())
    }
}

/// The factors with the variable marker, in order.
pub open spec fn variable_factors(fs: Seq<Seq<u8>>) -> Seq<Seq<u8>>
    decreases fs.len(),
{
    if fs.len() == 0 {
        fs
    } else if has_var(fs.last()) {
        variable_factors(fs.drop_last()).push(fs.last())
    } else {
        variable_factors(fs.drop_last())
    }
}

/// The first numeric factor that is not a real number literal, if any.
pub open spec fn numbers_fault(ns: Seq<Seq<u8>>) -> Result<(), ParseErrorModel>
    decreases ns.len(),
{
    if ns.len() == 0 {
        Ok(())
    } else {
        match numbers_fault(ns.drop_last()) {
            Err(e) => Err(e),
            Ok(_) => if number_literal(ns.last()) {
                Ok(())
            } else {
                Err(ParseErrorModel::InvalidValue(ns.last()))
            },
        }
    }
}

pub proof fn lemma_numbers_fault_prefix(ns: Seq<Seq<u8>>, n: int)
    requires
        0 <= n <= ns.len(),
        numbers_fault(ns.subrange(0, n)) is Err,
    ensures
        numbers_fault(ns) == numbers_fault(ns.subrange(0, n)),
    decreases ns.len(),
{
    if n < ns.len() {
        assert(ns.drop_last().subrange(0, n) =~= ns.subrange(0, n));
        lemma_numbers_fault_prefix(ns.drop_last(), n);
    } else {
        assert(ns.subrange(0, n) =~= ns);
    }
}

/// Rejects the first numeric factor that does not read as a real number.
pub fn check_numbers(values: &Vec<Vec<u8>>) -> (r: Result<(), ParseError>)
    ensures
        match numbers_fault(texts(values@)) {
            Ok(_) => r is Ok,
            Err(e) => r is Err && r->Err_0@ == e,
        },
{
    let mut i: usize = 0;
    while i < values.len()
        invariant
            i <= values@.len(),
            numbers_fault(texts(values@).subrange(0, i as int)) is Ok,
        decreases values@.len() - i,
    {
        let ghost pre = texts(values@).subrange(0, i as int + 1);
        proof {
            assert(pre.drop_last() =~= texts(values@).subrange(0, i as int));
            assert(pre.last() == values@[i as int]@);
        }
        if !is_number(&values[i]) {
            proof {
                lemma_numbers_fault_prefix(texts(values@), i as int + 1);
            }
            return Err(ParseError::InvalidValue(copy_of(values[i].as_slice())));
        }
        i = i + 1;
    }
    proof {
        assert(texts(values@).subrange(0, i as int) =~= texts(values@));
    }
    Ok(())
}

/// One parsed term: its power, and the numeric factors whose product is its
/// coefficient (none stands for a coefficient of one).
#[derive(Debug, PartialEq, Eq)]
pub struct Term {
    pub power: u8,
    pub factors: Vec<Vec<u8>>,
}

pub struct TermModel {
    pub power: nat,
    pub factors: Seq<Seq<u8>>,
}

impl View for Term {
    type V = TermModel;

    open spec fn view(&self) -> TermModel {
        TermModel { power: self.power as nat, factors: texts(self.factors@) }
    }
}

pub open spec fn term_views(ts: Seq<Term>) -> Seq<TermModel> {
    Seq::new(ts.len(), |i: int| ts[i]@)
}

/// A term read on its own: the factors between `*` marks, those holding the
/// variable marker giving the power and the others the coefficient; numeric
/// factors are checked before variable ones.
pub open spec fn term_spec(t: Seq<u8>) -> Result<TermModel, ParseErrorModel> {
    let fs = split_on(t, STAR);
    let nums = numeric_factors(fs);
    let vars = variable_factors(fs);
    match numbers_fault(nums) {
        Err(e) => Err(e),
        Ok(_) => match x_power(vars) {
            Err(e) => Err(e),
            Ok(p) => Ok(TermModel { power: p, factors: nums }),
        },
    }
}

/// Parses one term.
pub fn parse_term(value: &Vec<u8>) -> (r: Result<Term, ParseError>)
    ensures
        match term_spec(value@) {
            Ok(m) => r is Ok && r->Ok_0@ == m,
            Err(e) => r is Err && r->Err_0@ == e,
        },
{
    let parts = split_bytes(value, STAR);
    let ghost fs = texts(parts@);
    let mut nums: Vec<Vec<u8>> = Vec::new();
    let mut vars: Vec<Vec<u8>> = Vec::new();
    let mut i: usize = 0;
    while i < parts.len()
        invariant
            i <= parts@.len(),
            fs == texts(parts@),
            texts(nums@) == numeric_factors(fs.subrange(0, i as int)),
            texts(vars@) == variable_factors(fs.subrange(0, i as int)),
        decreases parts@.len() - i,
    {
        let ghost pre = fs.subrange(0, i as int + 1);
        proof {
            assert(pre.drop_last() =~= fs.subrange(0, i as int));
            assert(pre.last() == parts@[i as int]@);
        }
        let piece = copy_of(parts[i].as_slice());
        if holds_var(&parts[i]) {
            let ghost old_vars = texts(vars@);
            vars.push(piece);
            proof {
                assert(texts(vars@) =~= old_vars.push(piece@));
            }
        } else {
            let ghost old_nums = texts(nums@);
            nums.push(piece);
            proof {
                assert(texts(nums@) =~= old_nums.push(piece@));
            }
        }
        i = i + 1;
    }
    proof {
        assert(fs.subrange(0, i as int) =~= fs);
    }
    match check_numbers(&nums) {
        Err(e) => Err(e),
        Ok(()) => match parse_x_part(&vars) {
            Err(e) => Err(e),
            Ok(p) => Ok(Term { power: p, factors: nums }),
        },
    }
}

/// Every term of a side read in order, or the fault of the first bad one.
pub open spec fn terms_spec(ts: Seq<Seq<u8>>) -> Result<Seq<TermModel>, ParseErrorModel>
    decreases ts.len(),
{
    if ts.len() == 0 {
        Ok(Seq::empty())
    } else {
        match terms_spec(ts.drop_last()) {
            Err(e) => Err(e),
            Ok(ms) => match term_spec(ts.last()) {
                Err(e) => Err(e),
                Ok(m) => Ok(ms.push(m)),
            },
        }
    }
}

pub proof fn lemma_terms_spec_prefix(ts: Seq<Seq<u8>>, n: int)
    requires
        0 <= n <= ts.len(),
        terms_spec(ts.subrange(0, n)) is Err,
    ensures
        terms_spec(ts) == terms_spec(ts.subrange(0, n)),
    decreases ts.len(),
{
    if n < ts.len() {
        assert(ts.drop_last().subrange(0, n) =~= ts.subrange(0, n));
        lemma_terms_spec_prefix(ts.drop_last(), n);
    } else {
        assert(ts.subrange(0, n) =~= ts);
    }
}

/// Parses every term of a side, in order.
pub fn parse_coefficient(values: &Vec<Vec<u8>>) -> (r: Result<Vec<Term>, ParseError>)
    ensures
        match terms_spec(texts(values@)) {
            Ok(ms) => r is Ok && term_views(r->Ok_0@) == ms,
            Err(e) => r is Err && r->Err_0@ == e,
        },
{
    let mut coefficients: Vec<Term> = Vec::new();
    let mut i: usize = 0;
    proof {
        assert(texts(values@).subrange(0, 0) =~= Seq::<Seq<u8>>::empty());
        assert(term_views(coefficients@) =~= Seq::<TermModel>::empty());
    }
    while i < values.len()
        invariant
            i <= values@.len(),
            terms_spec(texts(values@).subrange(0, i as int)) == Ok::<Seq<TermModel>, ParseErrorModel>(
                term_views(coefficients@),
            ),
        decreases values@.len() - i,
    {
        let ghost pre = texts(values@).subrange(0, i as int + 1);
        proof {
            assert(pre.drop_last() =~= texts(values@).subrange(0, i as int));
            assert(pre.last() == values@[i as int]@);
        }
        match parse_term(&values[i]) {
            Err(e) => {
                proof {
                    lemma_terms_spec_prefix(texts(values@), i as int + 1);
                }
                return Err(e);
            },
            Ok(t) => {
                let ghost old_views = term_views(coefficients@);
                coefficients.push(t);
                proof {
                    assert(term_views(coefficients@) =~= old_views.push(
                        coefficients@[coefficients@.len() - 1]@,
                    ));
                }
            },
        }
        i = i + 1;
    }
    proof {
        assert(texts(values@).subrange(0, i as int) =~= texts(values@));
    }
    Ok(coefficients)
}

/// One side of an equation, its terms grouped by power: `a` holds the terms of
/// power 2, `b` those of power 1, `c` those of power 0, each in their order.
#[derive(Debug, PartialEq, Eq)]
pub struct Side {
    pub a: Vec<Term>,
    pub b: Vec<Term>,
    pub c: Vec<Term>,
}

pub struct SideModel {
    pub a: Seq<TermModel>,
    pub b: Seq<TermModel>,
    pub c: Seq<TermModel>,
}

impl View for Side {
    type V = SideModel;

    open spec fn view(&self) -> SideModel {
        SideModel { a: term_views(self.a@), b: term_views(self.b@), c: term_views(self.c@) }
    }
}

/// The terms of a given power, in order.
pub open spec fn with_power(ts: Seq<TermModel>, p: nat) -> Seq<TermModel>
    decreases ts.len(),
{
    if ts.len() == 0 {
        ts
    } else if ts.last().power == p {
        with_power(ts.drop_last(), p).push(ts.last())
    } else {
        with_power(ts.drop_last(), p)
    }
}

/// The first power above 2, if any.
pub open spec fn first_unsupported(ts: Seq<TermModel>) -> Option<nat>
    decreases ts.len(),
{
    if ts.len() == 0 {
        None
    } else {
        match first_unsupported(ts.drop_last()) {
            Some(p) => Some(p),
            None => if ts.last().power > 2 {
                Some(ts.last().power)
            } else {
                None
            },
        }
    }
}

pub proof fn lemma_first_unsupported_prefix(ts: Seq<TermModel>, n: int)
    requires
        0 <= n <= ts.len(),
        first_unsupported(ts.subrange(0, n)) is Some,
    ensures
        first_unsupported(ts) == first_unsupported(ts.subrange(0, n)),
    decreases ts.len(),
{
    if n < ts.len() {
        assert(ts.drop_last().subrange(0, n) =~= ts.subrange(0, n));
        lemma_first_unsupported_prefix(ts.drop_last(), n);
    } else {
        assert(ts.subrange(0, n) =~= ts);
    }
}

/// The terms of a side grouped by power, or the first power outside 0..=2.
pub open spec fn aggregate(ts: Seq<TermModel>) -> Result<SideModel, ParseErrorModel> {
    match first_unsupported(ts) {
        Some(p) => Err(ParseErrorModel::UnsupportedPower(p as u8)),
        None => Ok(SideModel { a: with_power(ts, 2), b: with_power(ts, 1), c: with_power(ts, 0) }),
    }
}

/// A fresh copy of a term.
fn copy_term(t: &Term) -> (r: Term)
    ensures
        r@ == t@,
{
    let mut factors: Vec<Vec<u8>> = Vec::new();
    let mut i: usize = 0;
    while i < t.factors.len()
        invariant
            i <= t.factors@.len(),
            texts(factors@) == texts(t.factors@).subrange(0, i as int),
        decreases t.factors@.len() - i,
    {
        let ghost before = texts(factors@);
        let piece = copy_of(t.factors[i].as_slice());
        factors.push(piece);
        proof {
            assert(texts(factors@) =~= before.push(piece@));
            assert(before.push(piece@) =~= texts(t.factors@).subrange(0, i as int + 1));
        }
        i = i + 1;
    }
    proof {
        assert(texts(t.factors@).subrange(0, i as int) =~= texts(t.factors@));
    }
    Term { power: t.power, factors }
}

/// Groups the terms of a side by power; a power outside 0..=2 is refused.
pub fn add_coefficients(coefficients: &Vec<Term>) -> (r: Result<Side, ParseError>)
    ensures
        match aggregate(term_views(coefficients@)) {
            Ok(m) => r is Ok && r->Ok_0@ == m,
            Err(e) => r is Err && r->Err_0@ == e,
        },
{
    let ghost all = term_views(coefficients@);
    let mut a: Vec<Term> = Vec::new();
    let mut b: Vec<Term> = Vec::new();
    let mut c: Vec<Term> = Vec::new();
    let mut k: usize = 0;
    proof {
        assert(all.subrange(0, 0) =~= Seq::<TermModel>::empty());
        assert(term_views(a@) =~= Seq::<TermModel>::empty());
    }
    while k < coefficients.len()
        invariant
            k <= all.len(),
            all == term_views(coefficients@),
            first_unsupported(all.subrange(0, k as int)) is None,
            term_views(a@) == with_power(all.subrange(0, k as int), 2),
            term_views(b@) == with_power(all.subrange(0, k as int), 1),
            term_views(c@) == with_power(all.subrange(0, k as int), 0),
        decreases all.len() - k,
    {
        let ghost pre = all.subrange(0, k as int + 1);
        proof {
            assert(pre.drop_last() =~= all.subrange(0, k as int));
        }
        let t = copy_term(&coefficients[k]);
        if t.power > 2 {
            proof {
                assert(first_unsupported(pre) == Some(t.power as nat));
                lemma_first_unsupported_prefix(all, k as int + 1);
            }
            return Err(ParseError::UnsupportedPower(t.power));
        }
        let ghost va = term_views(a@);
        let ghost vb = term_views(b@);
        let ghost vc = term_views(c@);
        if t.power == 2 {
            a.push(t);
            proof {
                assert(term_views(a@) =~= va.push(pre.last()));
            }
        } else if t.power == 1 {
            b.push(t);
            proof {
                assert(term_views(b@) =~= vb.push(pre.last()));
            }
        } else {
            c.push(t);
            proof {
                assert(term_views(c@) =~= vc.push(pre.last()));
            }
        }
        k = k + 1;
    }
    proof {
        assert(all.subrange(0, k as int) =~= all);
    }
    Ok(Side { a, b, c })
}

/// A side read from its text (blanks already removed).
pub open spec fn side_spec(s: Seq<u8>) -> Result<SideModel, ParseErrorModel> {
    match check_terms(split_terms(s)) {
        Err(e) => Err(e),
        Ok(_) => match terms_spec(split_terms(s)) {
            Err(e) => Err(e),
            Ok(ms) => aggregate(ms),
        },
    }
}

/// Reads one side: its terms, their powers and coefficients, grouped by power.
pub fn parsing_polynomial(raw_polynomial: &[u8]) -> (r: Result<Side, ParseError>)
    ensures
        match side_spec(raw_polynomial@) {
            Ok(m) => r is Ok && r->Ok_0@ == m,
            Err(e) => r is Err && r->Err_0@ == e,
        },
{
    let values = match parse_values(raw_polynomial) {
        Ok(v) => v,
        Err(e) => return Err(e),
    };
    let coefficients = match parse_coefficient(&values) {
        Ok(c) => c,
        Err(e) => return Err(e),
    };
    add_coefficients(&coefficients)
}

/// The blank bytes that the equation text may hold anywhere: space, tab, line
/// feed, form feed, carriage return.
pub open spec fn is_blank(b: u8) -> bool {
    b == 32 || b == 9 || b == 10 || b == 12 || b == 13
}

/// The text with its blanks taken out.
pub open spec fn stripped(s: Seq<u8>) -> Seq<u8>
    decreases s.len(),
{
    if s.len() == 0 {
        s
    } else if is_blank(s.last()) {
        stripped(s.drop_last())
    } else {
        stripped(s.drop_last()).push(s.last())
    }
}

fn strip_blanks(s: &[u8]) -> (r: Vec<u8>)
    ensures
        r@ == stripped(s@),
{
    let mut r: Vec<u8> = Vec::new();
    let mut i: usize = 0;
    while i < s.len()
        invariant
            i <= s@.len(),
            r@ == stripped(s@.subrange(0, i as int)),
        decreases s@.len() - i,
    {
        let c = s[i];
        proof {
            assert(s@.subrange(0, i as int + 1).drop_last() =~= s@.subrange(0, i as int));
        }
        if !(c == 32 || c == 9 || c == 10 || c == 12 || c == 13) {
            r.push(c);
        }
        i = i + 1;
    }
    proof {
        assert(s@.subrange(0, i as int) =~= s@);
    }
    r
}

/// A parsed equation: the terms of its two sides.
#[derive(Debug, PartialEq, Eq)]
pub struct Equation {
    pub left: Side,
    pub right: Side,
}

pub struct EquationModel {
    pub left: SideModel,
    pub right: SideModel,
}

impl View for Equation {
    type V = EquationModel;

    open spec fn view(&self) -> EquationModel {
        EquationModel { left: self.left@, right: self.right@ }
    }
}

/// An equation read from its text: blanks are dropped, the text must hold
/// exactly one `=`, and the left side is read before the right one.
pub open spec fn equation_spec(s: Seq<u8>) -> Result<EquationModel, ParseErrorModel> {
    let sides = split_on(stripped(s), EQUALS);
    if sides.len() != 2 {
        Err(ParseErrorModel::InvalidEquation)
    } else {
        match side_spec(sides[0]) {
            Err(e) => Err(e),
            Ok(l) => match side_spec(sides[1]) {
                Err(e) => Err(e),
                Ok(r) => Ok(EquationModel { left: l, right: r }),
            },
        }
    }
}

/// Reads an equation `<side> = <side>` into the terms of each side.
pub fn parsing(raw_equation: &str) -> (r: Result<Equation, ParseError>)
    ensures
        match equation_spec(raw_equation.spec_bytes()) {
            Ok(m) => r is Ok && r->Ok_0@ == m,
            Err(e) => r is Err && r->Err_0@ == e,
        },
{
    let equation = strip_blanks(raw_equation.as_bytes());
    let sides = split_bytes(&equation, EQUALS);
    if sides.len() != 2 {
        return Err(ParseError::InvalidEquation);
    }
    proof {
        assert(texts(sides@)[0] == sides@[0]@);
        assert(texts(sides@)[1] == sides@[1]@);
    }
    let left = match parsing_polynomial(sides[0].as_slice()) {
        Ok(l) => l,
        Err(e) => return Err(e),
    };
    let right = match parsing_polynomial(sides[1].as_slice()) {
        Ok(r) => r,
        Err(e) => return Err(e),
    };
    Ok(Equation { left, right })
}

/// Each term read in a successful side is the reading of the term at its place.
pub proof fn lemma_terms_spec_each(ts: Seq<Seq<u8>>)
    requires
        terms_spec(ts) is Ok,
    ensures
        terms_spec(ts)->Ok_0.len() == ts.len(),
        forall|k: int|
            0 <= k < ts.len() ==> term_spec(#[trigger] ts[k]) == Ok::<TermModel, ParseErrorModel>(
                terms_spec(ts)->Ok_0[k],
            ),
    decreases ts.len(),
{
    if ts.len() > 0 {
        lemma_terms_spec_each(ts.drop_last());
        let ms = terms_spec(ts)->Ok_0;
        assert forall|k: int| 0 <= k < ts.len() implies term_spec(#[trigger] ts[k]) == Ok::<
            TermModel,
            ParseErrorModel,
        >(ms[k]) by {
            if k < ts.len() - 1 {
                assert(ts[k] == ts.drop_last()[k]);
            }
        }
    }
}

/// A term of power above 2 anywhere makes the grouping fail.
pub proof fn lemma_unsupported_found(ts: Seq<TermModel>, k: int)
    requires
        0 <= k < ts.len(),
        ts[k].power > 2,
    ensures
        first_unsupported(ts) is Some,
    decreases ts.len(),
{
    if k < ts.len() - 1 {
        assert(ts.drop_last()[k] == ts[k]);
        lemma_unsupported_found(ts.drop_last(), k);
    }
}

/// An equation with a term of degree three or more, on either side, is refused:
/// whatever else its text holds, reading it gives an error, never a solvable form.
pub proof fn lemma_high_degree_refused(s: Seq<u8>, side: int, k: int)
    requires
        0 <= side < split_on(stripped(s), EQUALS).len(),
        side <= 1,
        0 <= k < split_terms(split_on(stripped(s), EQUALS)[side]).len(),
        term_spec(split_terms(split_on(stripped(s), EQUALS)[side])[k]) is Ok,
        term_spec(split_terms(split_on(stripped(s), EQUALS)[side])[k])->Ok_0.power > 2,
    ensures
        equation_spec(s) is Err,
{
    let sides = split_on(stripped(s), EQUALS);
    if sides.len() == 2 {
        let ts = split_terms(sides[side]);
        if check_terms(ts) is Ok && terms_spec(ts) is Ok {
            lemma_terms_spec_each(ts);
            lemma_unsupported_found(terms_spec(ts)->Ok_0, k);
        }
        assert(side_spec(sides[side]) is Err);
    }
}

/// The texts of a sequence laid end to end.
pub open spec fn joined(ts: Seq<Seq<u8>>) -> Seq<u8>
    decreases ts.len(),
{
    if ts.len() == 0 {
        Seq::empty()
    } else {
        joined(ts.drop_last()) + ts.last()
    }
}

/// Splitting a side into terms loses and adds nothing: the terms, laid end to
/// end, give back the side's text; and every term after the first starts with
/// a sign.
pub proof fn lemma_split_terms_joined(s: Seq<u8>)
    ensures
        joined(split_terms(s)) == s,
        forall|i: int|
            0 < i < split_terms(s).len() ==> #[trigger] split_terms(s)[i].len() > 0 && is_sign(
                split_terms(s)[i][0],
            ),
    decreases s.len(),
{
    if s.len() > 0 {
        let prev = split_terms(s.drop_last());
        lemma_split_terms_joined(s.drop_last());
        lemma_split_terms_nonempty(s.drop_last());
        if is_sign(s.last()) && s.len() > 1 {
            let next = prev.push(seq![s.last()]);
            assert(next.drop_last() =~= prev);
            assert(joined(next) == joined(prev) + seq![s.last()]);
            assert(s.drop_last() + seq![s.last()] =~= s);
        } else {
            let n = prev.len() - 1;
            let next = prev.update(n, prev.last().push(s.last()));
            assert(next.drop_last() =~= prev.drop_last());
            assert(joined(prev) == joined(prev.drop_last()) + prev.last());
            assert(joined(next) =~= joined(prev) + seq![s.last()]);
            assert(s.drop_last() + seq![s.last()] =~= s);
            assert forall|i: int| 0 < i < next.len() implies #[trigger] next[i].len() > 0 && is_sign(
                next[i][0],
            ) by {
                if i < n {
                    assert(next[i] == prev[i]);
                } else {
                    assert(next[i] == prev[i].push(s.last()));
                    assert(next[i][0] == prev[i][0]);
                }
            }
        }
    } else {
        let ts = split_terms(s);
        assert(ts =~= seq![Seq::<u8>::empty()]);
        assert(ts.drop_last() =~= Seq::<Seq<u8>>::empty());
        assert(joined(ts.drop_last()) =~= Seq::<u8>::empty());
        assert(ts.last() =~= Seq::<u8>::empty());
        assert(joined(ts) =~= s);
    }
}

} // verus!
