//! The subshell table: capacities and relativistic constants of the
//! thirteen known subshells, and the conversion from full notation
//! (`"4d-"`) to the two-character angular notation (`"d-"`).

use vstd::prelude::*;
use crate::text::{is_blank, is_digit, is_blank_char, is_digit_char, chars_of, two_char_string};

verus! {

/// Number of subshells in the table.
pub const SUBSHELL_COUNT: usize = 13;

/// Orbital angular momentum `l` named by a subshell letter.
pub open spec fn letter_l(c: char) -> Option<nat> {
    if c == 's' {
        Some(0)
    } else if c == 'p' {
        Some(1)
    } else if c == 'd' {
        Some(2)
    } else if c == 'f' {
        Some(3)
    } else if c == 'g' {
        Some(4)
    } else if c == 'h' {
        Some(5)
    } else if c == 'i' {
        Some(6)
    } else {
        None
    }
}

/// The letter naming orbital angular momentum `l` (for `l <= 6`).
pub open spec fn l_letter(l: int) -> char {
    if l == 0 {
        's'
    } else if l == 1 {
        'p'
    } else if l == 2 {
        'd'
    } else if l == 3 {
        'f'
    } else if l == 4 {
        'g'
    } else if l == 5 {
        'h'
    } else {
        'i'
    }
}

/// A known angular code: a letter `s`..`i`, then `-` (the lower-j partner,
/// which `s` does not have) or a space.
pub open spec fn is_known_code(code: Seq<char>) -> bool {
    &&& code.len() == 2
    &&& letter_l(code[0]) is Some
    &&& code[1] == ' ' || (code[1] == '-' && code[0] != 's')
}

/// `l` of a known code.
pub open spec fn code_l(code: Seq<char>) -> nat {
    letter_l(code[0])->0
}

/// Whether a code names the lower-j partner `j = l - 1/2`.
pub open spec fn is_lower_j(code: Seq<char>) -> bool {
    code[1] == '-'
}

/// Capacity `2j + 1` of a known code.
pub open spec fn max_electrons_of(code: Seq<char>) -> nat {
    if is_lower_j(code) {
        2 * code_l(code)
    } else {
        2 * code_l(code) + 2
    }
}

/// Square of the relativistic quantum number kappa of a known code:
/// kappa is `l` for `j = l - 1/2` and `-(l + 1)` for `j = l + 1/2`.
pub open spec fn kappa_squared_of(code: Seq<char>) -> nat {
    if is_lower_j(code) {
        code_l(code) * code_l(code)
    } else {
        (code_l(code) + 1) * (code_l(code) + 1)
    }
}

/// Code at row `i` of the table: `s `, `p-`, `p `, `d-`, `d `, ... `i `.
pub open spec fn table_code(i: int) -> Seq<char> {
    seq![l_letter((i + 1) / 2), if i % 2 == 1 { '-' } else { ' ' }]
}

/// The table lists exactly the known codes.
pub proof fn lemma_table_lists_known_codes(code: Seq<char>)
    ensures
        is_known_code(code) <==> exists|i: int| 0 <= i < 13 && #[trigger] table_code(i) == code,
{
    if is_known_code(code) {
        let l = code_l(code) as int;
        let i = if is_lower_j(code) { 2 * l - 1 } else { 2 * l };
        assert(table_code(i) =~= code);
    }
    if exists|i: int| 0 <= i < 13 && #[trigger] table_code(i) == code {
        let i = choose|i: int| 0 <= i < 13 && #[trigger] table_code(i) == code;
        assert(code[0] == table_code(i)[0]);
        assert(code[1] == table_code(i)[1]);
        assert(is_known_code(code));
    }
}

/// The capacity of every known subshell is even, twice its half-filled
/// occupation, and kappa squared is the square of that half.
pub proof fn lemma_capacity_and_kappa(code: Seq<char>)
    requires
        is_known_code(code),
    ensures
        max_electrons_of(code) == 2 * (max_electrons_of(code) / 2),
        max_electrons_of(code) > 0,
        kappa_squared_of(code) == (max_electrons_of(code) / 2) * (max_electrons_of(code) / 2),
        kappa_squared_of(code) > 0,
{
    let l = code_l(code);
    assert(is_lower_j(code) ==> l >= 1);
    let h = max_electrons_of(code) / 2;
    assert(h >= 1);
    assert(h * h >= 1) by (nonlinear_arith)
        requires
            h >= 1,
    ;
}

fn orbital_l(c: char) -> (r: Option<u32>)
    ensures
        match letter_l(c) {
            Some(l) => r == Some(l as u32),
            None => r is None,
        },
{
    if c == 's' {
        Some(0)
    } else if c == 'p' {
        Some(1)
    } else if c == 'd' {
        Some(2)
    } else if c == 'f' {
        Some(3)
    } else if c == 'g' {
        Some(4)
    } else if c == 'h' {
        Some(5)
    } else if c == 'i' {
        Some(6)
    } else {
        None
    }
}

/// `l` and the lower-j flag of a known code; `None` for any other string.
fn lookup_code(subshell: &str) -> (r: Option<(u32, bool)>)
    ensures
        r is Some <==> is_known_code(subshell@),
        r is Some ==> (r->0).0 == code_l(subshell@) && (r->0).1 == is_lower_j(subshell@),
        r is Some ==> (r->0).0 <= 6,
{
    if subshell.unicode_len() != 2 {
        return None;
    }
    let letter = subshell.get_char(0);
    let parity = subshell.get_char(1);
    match orbital_l(letter) {
        None => None,
        Some(l) => {
            if parity == ' ' {
                Some((l, false))
            } else if parity == '-' && letter != 's' {
                Some((l, true))
            } else {
                None
            }
        },
    }
}

/// Capacity of a subshell given in angular notation (exact match), `None`
/// for an unknown code.
pub fn get_max_subshell_electrons(subshell: &str) -> (r: Option<u32>)
    ensures
        r == if is_known_code(subshell@) {
            Some(max_electrons_of(subshell@) as u32)
        } else {
            None::<u32>
        },
{
    match lookup_code(subshell) {
        None => None,
        Some((l, lower)) => {
            if lower {
                Some(2 * l)
            } else {
                Some(2 * l + 2)
            }
        },
    }
}

/// Half of the capacity of a subshell in angular notation, `None` for an
/// unknown code.
pub fn get_half_filled_electrons(subshell: &str) -> (r: Option<u32>)
    ensures
        r == if is_known_code(subshell@) {
            Some((max_electrons_of(subshell@) / 2) as u32)
        } else {
            None::<u32>
        },
{
    match get_max_subshell_electrons(subshell) {
        None => None,
        Some(m) => Some(m / 2),
    }
}

/// Kappa squared of a subshell in angular notation, `None` for an unknown
/// code.
pub fn get_kappa_squared(subshell: &str) -> (r: Option<i32>)
    ensures
        r == if is_known_code(subshell@) {
            Some(kappa_squared_of(subshell@) as i32)
        } else {
            None::<i32>
        },
{
    match lookup_code(subshell) {
        None => None,
        Some((l, lower)) => {
            let k: i32 = if lower { l as i32 } else { l as i32 + 1 };
            assert(k * k <= 49) by (nonlinear_arith)
                requires
                    0 <= k <= 7,
            ;
            Some(k * k)
        },
    }
}

/// Every subshell code of the table with its capacity, in table order.
pub fn get_all_subshell_limits() -> (r: Vec<(String, u32)>)
    ensures
        r@.len() == 13,
        forall|i: int|
            0 <= i < 13 ==> {
                &&& (#[trigger] r@[i]).0@ == table_code(i)
                &&& is_known_code(table_code(i))
                &&& r@[i].1 == max_electrons_of(table_code(i))
            },
{
    let mut r: Vec<(String, u32)> = Vec::new();
    let mut i: usize = 0;
    while i < SUBSHELL_COUNT
        invariant
            i <= 13,
            r@.len() == i,
            forall|k: int|
                0 <= k < i ==> {
                    &&& (#[trigger] r@[k]).0@ == table_code(k)
                    &&& is_known_code(table_code(k))
                    &&& r@[k].1 == max_electrons_of(table_code(k))
                },
        decreases 13 - i,
    {
        let l = ((i + 1) / 2) as u32;
        let lower = i % 2 == 1;
        let letter = if l == 0 {
            's'
        } else if l == 1 {
            'p'
        } else if l == 2 {
            'd'
        } else if l == 3 {
            'f'
        } else if l == 4 {
            'g'
        } else if l == 5 {
            'h'
        } else {
            'i'
        };
        let code = two_char_string(letter, if lower { '-' } else { ' ' });
        let capacity = if lower { 2 * l } else { 2 * l + 2 };
        proof {
            let c = table_code(i as int);
            assert(code@ =~= c);
            assert(letter_l(c[0]) == Some(l as nat));
        }
        r.push((code, capacity));
        i += 1;
    }
    r
}

/// Index of the first character at or after `i` that is neither blank nor a
/// digit (the orbital letter), or `s.len()` when there is none.
pub open spec fn letter_index_from(s: Seq<char>, i: int) -> int
    decreases s.len() - i,
{
    if i >= s.len() {
        s.len() as int
    } else if is_blank(s[i]) || is_digit(s[i]) {
        letter_index_from(s, i + 1)
    } else {
        i
    }
}

/// Index of the last non-blank character among the first `n`, or -1.
pub open spec fn last_nonblank_before(s: Seq<char>, n: int) -> int
    decreases n,
{
    if n <= 0 {
        -1
    } else if !is_blank(s[n - 1]) {
        n - 1
    } else {
        last_nonblank_before(s, n - 1)
    }
}

/// Angular notation of a subshell in full notation: the orbital letter (the
/// first character that is neither blank nor a digit), then `-` when the
/// last non-blank character is a `-` after that letter, else a space. A
/// string with no letter gives two spaces.
pub open spec fn angular_of(s: Seq<char>) -> Seq<char> {
    let k = letter_index_from(s, 0);
    let j = last_nonblank_before(s, s.len() as int);
    if k >= s.len() {
        seq![' ', ' ']
    } else {
        seq![s[k], if j > k && s[j] == '-' { '-' } else { ' ' }]
    }
}

proof fn lemma_letter_index_bounds(s: Seq<char>, i: int)
    requires
        0 <= i,
    ensures
        i <= letter_index_from(s, i) || letter_index_from(s, i) == s.len(),
        letter_index_from(s, i) <= s.len() || i > s.len(),
        letter_index_from(s, i) < s.len() ==> !is_blank(s[letter_index_from(s, i)]) && !is_digit(
            s[letter_index_from(s, i)],
        ),
    decreases s.len() - i,
{
    if i < s.len() && (is_blank(s[i]) || is_digit(s[i])) {
        lemma_letter_index_bounds(s, i + 1);
    }
}

proof fn lemma_last_nonblank_bounds(s: Seq<char>, n: int)
    requires
        0 <= n <= s.len(),
    ensures
        -1 <= last_nonblank_before(s, n) < n,
        last_nonblank_before(s, n) >= 0 ==> !is_blank(s[last_nonblank_before(s, n)]),
    decreases n,
{
    if n > 0 && is_blank(s[n - 1]) {
        lemma_last_nonblank_bounds(s, n - 1);
    }
}

/// Converting to angular notation twice gives the same as once.
pub proof fn lemma_angular_idempotent(s: Seq<char>)
    ensures
        angular_of(angular_of(s)) == angular_of(s),
        angular_of(s).len() == 2,
{
    let a = angular_of(s);
    lemma_letter_index_bounds(s, 0);
    lemma_last_nonblank_bounds(s, s.len() as int);
    reveal_with_fuel(letter_index_from, 3);
    reveal_with_fuel(last_nonblank_before, 3);
    assert(angular_of(a) =~= a);
}

/// Angular notation of a subshell in full notation (`"4d-"` gives `"d-"`,
/// `" 2s "` gives `"s "`).
pub fn convert_full_to_angular(full: &str) -> (r: String)
    ensures
        r@ == angular_of(full@),
{
    let cs = chars_of(full);
    let n = cs.len();
    let mut k: usize = 0;
    while k < n && (is_blank_char(cs[k]) || is_digit_char(cs[k]))
        invariant
            n == cs@.len(),
            k <= n,
            letter_index_from(cs@, 0) == letter_index_from(cs@, k as int),
        decreases n - k,
    {
        k += 1;
    }
    let mut j: usize = n;
    while j > 0 && is_blank_char(cs[j - 1])
        invariant
            n == cs@.len(),
            j <= n,
            last_nonblank_before(cs@, n as int) == last_nonblank_before(cs@, j as int),
        decreases j,
    {
        j -= 1;
    }
    // j - 1 is now the last non-blank index, or j == 0 when there is none
    if k >= n {
        two_char_string(' ', ' ')
    } else {
        let parity = if j > 0 && j - 1 > k && cs[j - 1] == '-' {
            '-'
        } else {
            ' '
        };
        two_char_string(cs[k], parity)
    }
}

/// Angular notation of each subshell of a list, in order.
pub fn convert_full_to_angular_list(full: &[String]) -> (r: Vec<String>)
    ensures
        r@.len() == full@.len(),
        forall|i: int| 0 <= i < full@.len() ==> (#[trigger] r@[i])@ == angular_of(full@[i]@),
{
    let mut r: Vec<String> = Vec::new();
    let mut i: usize = 0;
    while i < full.len()
        invariant
            i <= full@.len(),
            r@.len() == i,
            forall|k: int| 0 <= k < i ==> (#[trigger] r@[k])@ == angular_of(full@[k]@),
        decreases full@.len() - i,
    {
        let a = convert_full_to_angular(full[i].as_str());
        r.push(a);
        i += 1;
    }
    r
}

} // verus!
