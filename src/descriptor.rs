//! The CSF record parser: turns the three lines of one record into a flat
//! descriptor of `(electron count, doubled J middle, doubled J coupling)`
//! triplets, one per peel subshell.
//!
//! Column model: the occupation line has one 9-character column per
//! subshell, `"  4d-( 4)"`, the count standing between the parentheses.
//! A token of the intermediate line belongs to the column that holds its
//! first character. The first token of that line gives the J middle of its
//! column and opens a group there; each later token gives the J coupling of
//! the open group and moves the group to its own column. When the last
//! subshell is still without a coupling value, the last token of the final
//! line supplies it.
//!
//! J values are doubled so that half-integers stay integers. A fraction
//! `n/2` stands for `n`. On the final line an integer, optionally followed
//! by a parity marker (`4-`), is a total J and is doubled; on the
//! intermediate line an integer is taken as it stands.

use vstd::prelude::*;
use crate::text::{is_blank, is_digit, digit_value, is_blank_char, is_digit_char, chars_of};

verus! {

/// Width of one occupation column.
pub const COLUMN_WIDTH: usize = 9;

/// The three lines of a record.
#[derive(Clone, Copy, Debug, PartialEq, Eq, Structural)]
pub enum CsfLine {
    Occupation,
    Intermediate,
    Final,
}

/// Why a record could not be parsed.
#[derive(Clone, Copy, Debug, PartialEq, Eq, Structural)]
pub enum ParseError {
    /// The occupation line does not have one 9-character column per subshell.
    LengthMismatch { orbital_count: usize, line_len: usize },
    /// The token (or occupation column) at this character offset of this
    /// line cannot be read.
    BadToken { line: CsfLine, offset: usize },
    /// A token of the intermediate line starts right of the last column.
    UnknownColumn { offset: usize },
}

// ---------------------------------------------------------------- numbers

/// All characters are decimal digits.
pub open spec fn all_digits(s: Seq<char>) -> bool {
    forall|i: int| 0 <= i < s.len() ==> is_digit(#[trigger] s[i])
}

/// A non-empty run of digits.
pub open spec fn is_numeral(s: Seq<char>) -> bool {
    s.len() > 0 && all_digits(s)
}

/// Decimal value of a run of digits.
pub open spec fn numeral(s: Seq<char>) -> int
    decreases s.len(),
{
    if s.len() == 0 {
        0
    } else {
        10 * numeral(s.drop_last()) + digit_value(s.last())
    }
}

proof fn lemma_numeral_prefix(s: Seq<char>, k: int)
    requires
        0 <= k <= s.len(),
        all_digits(s),
    ensures
        0 <= numeral(s.take(k)) <= numeral(s),
    decreases s.len(),
{
    if s.len() == 0 {
        assert(s.take(k) =~= s);
    } else if k == s.len() {
        assert(s.take(k) =~= s);
        assert(all_digits(s.drop_last()));
        lemma_numeral_prefix(s.drop_last(), k - 1);
        assert(s.drop_last().take(k - 1) =~= s.drop_last());
    } else {
        assert(all_digits(s.drop_last()));
        lemma_numeral_prefix(s.drop_last(), k);
        assert(s.drop_last().take(k) =~= s.take(k));
        lemma_numeral_prefix(s.drop_last(), s.len() - 1);
        assert(s.drop_last().take(s.len() - 1) =~= s.drop_last());
    }
}

/// The value of the digits `cs[start..end]`, when they are all digits and
/// the value fits an `i32`.
fn parse_digits(cs: &Vec<char>, start: usize, end: usize) -> (r: Option<i32>)
    requires
        start <= end <= cs@.len(),
    ensures
        match r {
            Some(v) => v >= 0 && all_digits(cs@.subrange(start as int, end as int)) && v == numeral(
                cs@.subrange(start as int, end as int),
            ),
            None => !(all_digits(cs@.subrange(start as int, end as int)) && numeral(
                cs@.subrange(start as int, end as int),
            ) <= i32::MAX),
        },
{
    let ghost t = cs@.subrange(start as int, end as int);
    let mut v: i32 = 0;
    let mut i: usize = start;
    while i < end
        invariant
            start <= i <= end <= cs@.len(),
            t == cs@.subrange(start as int, end as int),
            all_digits(cs@.subrange(start as int, i as int)),
            v == numeral(cs@.subrange(start as int, i as int)),
            0 <= v,
        decreases end - i,
    {
        let c = cs[i];
        if !is_digit_char(c) {
            assert(t[i - start] == c);
            return None;
        }
        let d = ((c as u32) - ('0' as u32)) as i32;
        let ghost next = cs@.subrange(start as int, i + 1);
        assert(next.drop_last() =~= cs@.subrange(start as int, i as int));
        assert(all_digits(next));
        if v > 214748364 || (v == 214748364 && d > 7) {
            proof {
                if all_digits(t) {
                    assert(t.take(i + 1 - start) =~= next);
                    lemma_numeral_prefix(t, i + 1 - start);
                }
            }
            return None;
        }
        v = v * 10 + d;
        i += 1;
    }
    assert(cs@.subrange(start as int, i as int) =~= t);
    Some(v)
}

// ---------------------------------------------------------------- J tokens

/// A J token: a fraction `n/2` (its numeral, `true`), or an integer
/// optionally followed by one parity marker (its numeral, `false`).
pub open spec fn j_token(t: Seq<char>) -> Option<(int, bool)> {
    if t.len() >= 3 && t[t.len() - 2] == '/' && t[t.len() - 1] == '2' && is_numeral(
        t.take(t.len() - 2),
    ) {
        Some((numeral(t.take(t.len() - 2)), true))
    } else if is_numeral(t) {
        Some((numeral(t), false))
    } else if t.len() >= 2 && is_numeral(t.drop_last()) && !is_digit(t.last()) && t.last() != '/' {
        Some((numeral(t.drop_last()), false))
    } else {
        None
    }
}

/// Doubled J of a token of the intermediate line.
pub open spec fn intermediate_j(t: Seq<char>) -> Option<i32> {
    match j_token(t) {
        Some((v, _)) => if v <= i32::MAX {
            Some(v as i32)
        } else {
            None
        },
        None => None,
    }
}

/// Doubled J of the token of the final line.
pub open spec fn final_j(t: Seq<char>) -> Option<i32> {
    match j_token(t) {
        Some((v, frac)) => {
            let d = if frac {
                v
            } else {
                2 * v
            };
            if d <= i32::MAX {
                Some(d as i32)
            } else {
                None
            }
        },
        None => None,
    }
}

fn decode_j(cs: &Vec<char>, s: usize, e: usize) -> (r: Option<(i32, bool)>)
    requires
        s < e <= cs@.len(),
    ensures
        ({
            let t = cs@.subrange(s as int, e as int);
            match r {
                Some((v, frac)) => j_token(t) == Some((v as int, frac)) && v >= 0,
                None => j_token(t) is None || (j_token(t)->0).0 > i32::MAX,
            }
        }),
{
    let ghost t = cs@.subrange(s as int, e as int);
    if e - s >= 3 && cs[e - 2] == '/' && cs[e - 1] == '2' {
        assert(t[t.len() - 2] == '/');
        assert(t.take(t.len() - 2) =~= cs@.subrange(s as int, e - 2));
        assert(!is_digit(t[t.len() - 2]));
        match parse_digits(cs, s, e - 2) {
            Some(v) => {
                return Some((v, true));
            },
            None => {
                return None;
            },
        }
    }
    match parse_digits(cs, s, e) {
        Some(v) => {
            return Some((v, false));
        },
        None => {},
    }
    let last = cs[e - 1];
    if e - s >= 2 && !is_digit_char(last) && last != '/' {
        assert(t.drop_last() =~= cs@.subrange(s as int, e - 1));
        assert(!all_digits(t)) by {
            assert(t[t.len() - 1] == last);
        }
        match parse_digits(cs, s, e - 1) {
            Some(v) => Some((v, false)),
            None => None,
        }
    } else {
        proof {
            if e - s >= 2 {
                assert(t.last() == last);
            }
        }
        None
    }
}

// ---------------------------------------------------------------- tokens

/// A token (a maximal run of non-blank characters) starts at `i`.
pub open spec fn starts_token(s: Seq<char>, i: int) -> bool {
    0 <= i < s.len() && !is_blank(s[i]) && (i == 0 || is_blank(s[i - 1]))
}

/// End (exclusive) of the run of non-blank characters from `i`.
pub open spec fn token_end(s: Seq<char>, i: int) -> int
    decreases s.len() - i,
{
    if 0 <= i < s.len() && !is_blank(s[i]) {
        token_end(s, i + 1)
    } else {
        i
    }
}

/// Start and end of each token that starts at or after `i`, left to right.
pub open spec fn tokens_from(s: Seq<char>, i: int) -> Seq<(int, int)>
    decreases s.len() - i,
{
    if i >= s.len() {
        seq![]
    } else if starts_token(s, i) {
        seq![(i, token_end(s, i))] + tokens_from(s, i + 1)
    } else {
        tokens_from(s, i + 1)
    }
}

/// The tokens of a line.
pub open spec fn tokens(s: Seq<char>) -> Seq<(int, int)> {
    tokens_from(s, 0)
}

pub open spec fn spans_view(v: Seq<(usize, usize)>) -> Seq<(int, int)> {
    v.map_values(|p: (usize, usize)| (p.0 as int, p.1 as int))
}

fn token_spans(cs: &Vec<char>) -> (r: Vec<(usize, usize)>)
    ensures
        spans_view(r@) == tokens(cs@),
        forall|k: int| 0 <= k < r@.len() ==> (#[trigger] r@[k]).0 < r@[k].1 <= cs@.len(),
{
    let n = cs.len();
    let mut r: Vec<(usize, usize)> = Vec::new();
    let mut i: usize = 0;
    while i < n
        invariant
            n == cs@.len(),
            i <= n,
            tokens_from(cs@, 0) == spans_view(r@) + tokens_from(cs@, i as int),
            forall|k: int| 0 <= k < r@.len() ==> (#[trigger] r@[k]).0 < r@[k].1 <= n,
        decreases n - i,
    {
        if !is_blank_char(cs[i]) && (i == 0 || is_blank_char(cs[i - 1])) {
            let mut e: usize = i;
            while e < n && !is_blank_char(cs[e])
                invariant
                    i <= e <= n,
                    n == cs@.len(),
                    token_end(cs@, i as int) == token_end(cs@, e as int),
                    e == i || !is_blank(cs@[i as int]),
                decreases n - e,
            {
                e += 1;
            }
            let ghost old_r = r@;
            r.push((i, e));
            assert(spans_view(r@) =~= spans_view(old_r).push((i as int, e as int)));
            assert(spans_view(r@) + tokens_from(cs@, i + 1) =~= spans_view(old_r) + (seq![
                (i as int, e as int),
            ] + tokens_from(cs@, i + 1)));
        }
        i += 1;
    }
    r
}

// ---------------------------------------------------------------- occupation

/// Characters of column `i` of the occupation line.
pub open spec fn column(l1: Seq<char>, i: int) -> Seq<char> {
    l1.subrange(9 * i, 9 * i + 9)
}

/// Electron count of one column: one or two digits between the
/// parentheses at positions 5 and 8 (`"  5s ( 2)"`, `"  4f (10)"`).
pub open spec fn occupation_count(f: Seq<char>) -> Option<i32> {
    if f[5] == '(' && f[8] == ')' && is_digit(f[7]) && (f[6] == ' ' || is_digit(f[6])) {
        let tens = if f[6] == ' ' {
            0
        } else {
            digit_value(f[6])
        };
        Some((10 * tens + digit_value(f[7])) as i32)
    } else {
        None
    }
}

/// Counts of the first `k` columns, or the first column that cannot be read.
pub open spec fn counts_upto(l1: Seq<char>, k: int) -> Result<Seq<i32>, ParseError>
    decreases k,
{
    if k <= 0 {
        Ok(seq![])
    } else {
        match counts_upto(l1, k - 1) {
            Err(e) => Err(e),
            Ok(c) => match occupation_count(column(l1, k - 1)) {
                None => Err(
                    ParseError::BadToken { line: CsfLine::Occupation, offset: (9 * (k - 1)) as usize },
                ),
                Some(x) => Ok(c.push(x)),
            },
        }
    }
}

/// Counts of all columns of an occupation line for `n` subshells.
pub open spec fn occupation_counts(n: nat, l1: Seq<char>) -> Result<Seq<i32>, ParseError> {
    if l1.len() != 9 * n {
        Err(ParseError::LengthMismatch { orbital_count: n as usize, line_len: l1.len() as usize })
    } else {
        counts_upto(l1, n as int)
    }
}

proof fn lemma_counts_err_stays(l1: Seq<char>, k: int, m: int)
    requires
        0 <= k <= m,
        counts_upto(l1, k) is Err,
    ensures
        counts_upto(l1, m) == counts_upto(l1, k),
    decreases m - k,
{
    if m > k {
        lemma_counts_err_stays(l1, k, m - 1);
    }
}

fn parse_occupation(cs: &Vec<char>, base: usize) -> (r: Option<i32>)
    requires
        base + 9 <= cs@.len(),
    ensures
        r == occupation_count(cs@.subrange(base as int, base + 9)),
{
    let ghost f = cs@.subrange(base as int, base + 9);
    assert(f[5] == cs@[base + 5] && f[6] == cs@[base + 6] && f[7] == cs@[base + 7] && f[8]
        == cs@[base + 8]);
    let len = cs.len();
    assert(base + 9 <= len);
    let open_paren = cs[base + 5];
    let tens_char = cs[base + 6];
    let units_char = cs[base + 7];
    let close_paren = cs[base + 8];
    if open_paren == '(' && close_paren == ')' && is_digit_char(units_char) && (tens_char == ' '
        || is_digit_char(tens_char)) {
        let tens: i32 = if tens_char == ' ' {
            0
        } else {
            ((tens_char as u32) - ('0' as u32)) as i32
        };
        Some(10 * tens + ((units_char as u32) - ('0' as u32)) as i32)
    } else {
        None
    }
}

// ---------------------------------------------------------------- coupling

/// Coupling values gathered so far: J middle and J coupling per subshell,
/// which subshells have a coupling value, and the open group.
pub struct CouplingModel {
    pub mid: Seq<i32>,
    pub coup: Seq<i32>,
    pub closed: Seq<bool>,
    pub open: Option<usize>,
}

pub open spec fn initial_coupling(n: nat) -> CouplingModel {
    CouplingModel {
        mid: Seq::new(n, |i: int| 0i32),
        coup: Seq::new(n, |i: int| 0i32),
        closed: Seq::new(n, |i: int| false),
        open: None,
    }
}

/// One token of value `v` whose column is `home`.
pub open spec fn assign_token(st: CouplingModel, home: int, v: i32) -> CouplingModel {
    match st.open {
        None => CouplingModel { mid: st.mid.update(home, v), open: Some(home as usize), ..st },
        Some(o) => CouplingModel {
            coup: st.coup.update(o as int, v),
            closed: st.closed.update(o as int, true),
            open: Some(home as usize),
            ..st
        },
    }
}

/// The intermediate line's tokens `toks`, taken left to right.
pub open spec fn couple(n: nat, l2: Seq<char>, toks: Seq<(int, int)>) -> Result<
    CouplingModel,
    ParseError,
>
    decreases toks.len(),
{
    if toks.len() == 0 {
        Ok(initial_coupling(n))
    } else {
        match couple(n, l2, toks.drop_last()) {
            Err(e) => Err(e),
            Ok(st) => {
                let (s, e) = toks.last();
                if s / 9 >= n {
                    Err(ParseError::UnknownColumn { offset: s as usize })
                } else {
                    match intermediate_j(l2.subrange(s, e)) {
                        None => Err(
                            ParseError::BadToken { line: CsfLine::Intermediate, offset: s as usize },
                        ),
                        Some(v) => Ok(assign_token(st, s / 9, v)),
                    }
                }
            },
        }
    }
}

proof fn lemma_couple_err_stays(n: nat, l2: Seq<char>, toks: Seq<(int, int)>, k: int)
    requires
        0 <= k <= toks.len(),
        couple(n, l2, toks.take(k)) is Err,
    ensures
        couple(n, l2, toks) == couple(n, l2, toks.take(k)),
    decreases toks.len(),
{
    if k == toks.len() {
        assert(toks.take(k) =~= toks);
    } else {
        assert(toks.drop_last().take(k) =~= toks.take(k));
        lemma_couple_err_stays(n, l2, toks.drop_last(), k);
    }
}

/// The final line's last token gives the coupling of the last subshell,
/// unless the intermediate line already did.
pub open spec fn close_last(n: nat, st: CouplingModel, l3: Seq<char>) -> Result<
    CouplingModel,
    ParseError,
> {
    let toks = tokens(l3);
    if n == 0 || st.closed[n - 1] || toks.len() == 0 {
        Ok(st)
    } else {
        let (s, e) = toks.last();
        match final_j(l3.subrange(s, e)) {
            None => Err(ParseError::BadToken { line: CsfLine::Final, offset: s as usize }),
            Some(v) => Ok(
                CouplingModel {
                    coup: st.coup.update(n - 1, v),
                    closed: st.closed.update(n - 1, true),
                    ..st
                },
            ),
        }
    }
}

/// The flat descriptor: count, J middle, J coupling per subshell.
pub open spec fn triplets(counts: Seq<i32>, st: CouplingModel) -> Seq<i32> {
    Seq::new(
        3 * counts.len(),
        |k: int|
            if k % 3 == 0 {
                counts[k / 3]
            } else if k % 3 == 1 {
                st.mid[k / 3]
            } else {
                st.coup[k / 3]
            },
    )
}

/// The descriptor of a record for `n` peel subshells, or the first error.
pub open spec fn csf_descriptor(n: nat, l1: Seq<char>, l2: Seq<char>, l3: Seq<char>) -> Result<
    Seq<i32>,
    ParseError,
> {
    match occupation_counts(n, l1) {
        Err(e) => Err(e),
        Ok(counts) => match couple(n, l2, tokens(l2)) {
            Err(e) => Err(e),
            Ok(st) => match close_last(n, st, l3) {
                Err(e) => Err(e),
                Ok(fin) => Ok(triplets(counts, fin)),
            },
        },
    }
}

// ---------------------------------------------------------------- generator

/// Parser for the records of one peel subshell list.
pub struct CSFDescriptorGenerator {
    peel_subshells: Vec<String>,
}

/// The configuration of a generator.
pub struct GeneratorConfig {
    pub orbital_count: usize,
    pub peel_subshells: Vec<String>,
}

impl CSFDescriptorGenerator {
    /// The peel subshells, in column order.
    pub closed spec fn subshells(&self) -> Seq<String> {
        self.peel_subshells@
    }

    pub fn new(peel_subshells: Vec<String>) -> (r: Self)
        ensures
            r.subshells() == peel_subshells@,
    {
        CSFDescriptorGenerator { peel_subshells }
    }

    pub fn orbital_count(&self) -> (r: usize)
        ensures
            r == self.subshells().len(),
    {
        self.peel_subshells.len()
    }

    pub fn peel_subshells(&self) -> (r: &Vec<String>)
        ensures
            r@ == self.subshells(),
    {
        &self.peel_subshells
    }

    pub fn get_config(&self) -> (r: GeneratorConfig)
        ensures
            r.orbital_count == self.subshells().len(),
            r.peel_subshells@.len() == self.subshells().len(),
            forall|i: int|
                0 <= i < r.peel_subshells@.len() ==> (#[trigger] r.peel_subshells@[i])@
                    == self.subshells()[i]@,
    {
        let mut copy: Vec<String> = Vec::new();
        let mut i: usize = 0;
        while i < self.peel_subshells.len()
            invariant
                i <= self.peel_subshells@.len(),
                copy@.len() == i,
                forall|k: int| 0 <= k < i ==> (#[trigger] copy@[k])@ == self.peel_subshells@[k]@,
            decreases self.peel_subshells@.len() - i,
        {
            copy.push(self.peel_subshells[i].clone());
            i += 1;
        }
        GeneratorConfig { orbital_count: self.peel_subshells.len(), peel_subshells: copy }
    }

    /// Parses one record into its descriptor of `3 * orbital_count` values.
    pub fn parse_csf(&self, line1: &str, line2: &str, line3: &str) -> (r: Result<
        Vec<i32>,
        ParseError,
    >)
        ensures
            match csf_descriptor(self.subshells().len(), line1@, line2@, line3@) {
                Ok(d) => r is Ok && r->Ok_0@ == d,
                Err(e) => r == Err::<Vec<i32>, ParseError>(e),
            },
    {
        let n = self.peel_subshells.len();
        let c1 = chars_of(line1);
        let c2 = chars_of(line2);
        let c3 = chars_of(line3);
        let counts = match read_counts(&c1, n) {
            Ok(c) => c,
            Err(e) => {
                return Err(e);
            },
        };
        let (mut coup, mut closed, mid) = match read_coupling(&c2, n) {
            Ok(st) => st,
            Err(e) => {
                return Err(e);
            },
        };
        let ghost st = CouplingModel { mid: mid@, coup: coup@, closed: closed@, open: None };
        let ghost fin = close_last(n as nat, st, c3@);
        if n > 0 && !closed[n - 1] {
            let toks = token_spans(&c3);
            if toks.len() > 0 {
                let (s, e) = toks[toks.len() - 1];
                assert(tokens(c3@).last() == (s as int, e as int));
                match decode_j(&c3, s, e) {
                    None => {
                        return Err(ParseError::BadToken { line: CsfLine::Final, offset: s });
                    },
                    Some((v, frac)) => {
                        if frac {
                            coup.set(n - 1, v);
                        } else if v <= i32::MAX / 2 {
                            coup.set(n - 1, 2 * v);
                        } else {
                            return Err(ParseError::BadToken { line: CsfLine::Final, offset: s });
                        }
                        closed.set(n - 1, true);
                    },
                }
            }
        }
        assert(fin is Ok && fin->Ok_0.mid == mid@ && fin->Ok_0.coup == coup@);
        let mut d: Vec<i32> = Vec::new();
        let mut i: usize = 0;
        while i < n
            invariant
                i <= n,
                n == counts@.len(),
                n == mid@.len(),
                n == coup@.len(),
                d@.len() == 3 * i,
                forall|k: int|
                    0 <= k < 3 * i ==> #[trigger] d@[k] == triplets(counts@, fin->Ok_0)[k],
                fin is Ok && fin->Ok_0.mid == mid@ && fin->Ok_0.coup == coup@,
            decreases n - i,
        {
            d.push(counts[i]);
            d.push(mid[i]);
            d.push(coup[i]);
            i += 1;
        }
        assert(d@ =~= triplets(counts@, fin->Ok_0));
        Ok(d)
    }
}

/// Electron counts of the occupation line for `n` subshells.
fn read_counts(c1: &Vec<char>, n: usize) -> (r: Result<Vec<i32>, ParseError>)
    ensures
        match occupation_counts(n as nat, c1@) {
            Ok(c) => r is Ok && r->Ok_0@ == c,
            Err(e) => r == Err::<Vec<i32>, ParseError>(e),
        },
        r is Ok ==> r->Ok_0@.len() == n,
{
    if c1.len() % COLUMN_WIDTH != 0 || c1.len() / COLUMN_WIDTH != n {
        return Err(ParseError::LengthMismatch { orbital_count: n, line_len: c1.len() });
    }
    let mut counts: Vec<i32> = Vec::new();
    let mut i: usize = 0;
    while i < n
        invariant
            i <= n,
            c1@.len() == 9 * n,
            counts_upto(c1@, i as int) == Ok::<Seq<i32>, ParseError>(counts@),
            counts@.len() == i,
        decreases n - i,
    {
        let total = c1.len();
        assert(9 * i + 9 <= 9 * n) by (nonlinear_arith)
            requires
                i < n,
        ;
        let base = COLUMN_WIDTH * i;
        assert(column(c1@, i as int) =~= c1@.subrange(base as int, base + 9));
        match parse_occupation(c1, base) {
            None => {
                proof {
                    lemma_counts_err_stays(c1@, i + 1, n as int);
                }
                return Err(ParseError::BadToken { line: CsfLine::Occupation, offset: base });
            },
            Some(x) => {
                counts.push(x);
            },
        }
        i += 1;
    }
    Ok(counts)
}

/// J coupling, closed flags and J middle after the intermediate line.
fn read_coupling(c2: &Vec<char>, n: usize) -> (r: Result<(Vec<i32>, Vec<bool>, Vec<i32>), ParseError>)
    ensures
        match couple(n as nat, c2@, tokens(c2@)) {
            Ok(st) => r is Ok && (r->Ok_0).0@ == st.coup && (r->Ok_0).1@ == st.closed && (
            r->Ok_0).2@ == st.mid,
            Err(e) => r == Err::<(Vec<i32>, Vec<bool>, Vec<i32>), ParseError>(e),
        },
        r is Ok ==> (r->Ok_0).0@.len() == n && (r->Ok_0).1@.len() == n && (r->Ok_0).2@.len() == n,
{
    let mut mid: Vec<i32> = Vec::new();
    let mut coup: Vec<i32> = Vec::new();
    let mut closed: Vec<bool> = Vec::new();
    let mut i: usize = 0;
    while i < n
        invariant
            i <= n,
            mid@ == Seq::new(i as nat, |j: int| 0i32),
            coup@ == Seq::new(i as nat, |j: int| 0i32),
            closed@ == Seq::new(i as nat, |j: int| false),
        decreases n - i,
    {
        mid.push(0);
        coup.push(0);
        closed.push(false);
        i += 1;
        assert(mid@ =~= Seq::new(i as nat, |j: int| 0i32));
        assert(coup@ =~= Seq::new(i as nat, |j: int| 0i32));
        assert(closed@ =~= Seq::new(i as nat, |j: int| false));
    }
    let toks = token_spans(c2);
    let ghost all = spans_view(toks@);
    let mut open: Option<usize> = None;
    let mut k: usize = 0;
    assert(all.take(0) =~= Seq::<(int, int)>::empty());
    while k < toks.len()
        invariant
            k <= toks@.len(),
            all == spans_view(toks@),
            all == tokens(c2@),
            forall|q: int| 0 <= q < toks@.len() ==> (#[trigger] toks@[q]).0 < toks@[q].1 <= c2@.len(),
            couple(n as nat, c2@, all.take(k as int)) == Ok::<CouplingModel, ParseError>(
                CouplingModel { mid: mid@, coup: coup@, closed: closed@, open },
            ),
            mid@.len() == n,
            coup@.len() == n,
            closed@.len() == n,
            open is Some ==> open->0 < n,
        decreases toks@.len() - k,
    {
        let (s, e) = toks[k];
        let ghost pre = all.take(k as int);
        let ghost cur = all.take(k + 1);
        assert(cur.drop_last() =~= pre);
        assert(cur.last() == (s as int, e as int));
        let home = s / COLUMN_WIDTH;
        if home >= n {
            proof {
                lemma_couple_err_stays(n as nat, c2@, all, k + 1);
            }
            return Err(ParseError::UnknownColumn { offset: s });
        }
        match decode_j(c2, s, e) {
            None => {
                proof {
                    lemma_couple_err_stays(n as nat, c2@, all, k + 1);
                }
                return Err(ParseError::BadToken { line: CsfLine::Intermediate, offset: s });
            },
            Some((v, _)) => {
                match open {
                    None => {
                        mid.set(home, v);
                    },
                    Some(o) => {
                        coup.set(o, v);
                        closed.set(o, true);
                    },
                }
                open = Some(home);
            },
        }
        k += 1;
        proof {
            let st = couple(n as nat, c2@, cur)->Ok_0;
            assert(st.mid =~= mid@);
            assert(st.coup =~= coup@);
            assert(st.closed =~= closed@);
        }
    }
    assert(all.take(k as int) =~= all);
    Ok((coup, closed, mid))
}

} // verus!
