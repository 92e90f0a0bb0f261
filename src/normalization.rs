//! Descriptor normalization: each raw value is divided by a physical scale
//! of its subshell (capacity for electron counts, kappa squared for J
//! middle, a caller's maximum for J coupling). Results are exact fractions.

use vstd::prelude::*;
use crate::subshell::{
    angular_of, is_known_code, max_electrons_of, kappa_squared_of, convert_full_to_angular,
    get_max_subshell_electrons, get_kappa_squared,
};

verus! {

/// The exact quotient `numer / denom`, with `denom > 0`.
#[derive(Clone, Copy, Debug, PartialEq, Eq, Structural)]
pub struct Fraction {
    pub numer: i64,
    pub denom: i64,
}

/// `x / p` as a fraction with a positive denominator (for `p != 0`).
pub open spec fn scaled(x: int, p: int) -> Fraction {
    if p > 0 {
        Fraction { numer: x as i64, denom: p as i64 }
    } else {
        Fraction { numer: (-x) as i64, denom: (-p) as i64 }
    }
}

/// `a / b` equals the integer `x`.
pub open spec fn quotient_is(a: Fraction, b: Fraction, x: int) -> bool {
    b.numer != 0 && a.numer * b.denom == x * a.denom * b.numer
}

/// Why a descriptor could not be normalized.
#[derive(Debug)]
pub enum NormalizationError {
    /// This subshell (as the caller gave it) is not in the table.
    UnknownSubshell(String),
    /// A scale is zero.
    DivideByZero,
    /// The descriptor does not hold three values per subshell.
    LengthMismatch { orbital_count: usize, descriptor_len: usize },
}

/// A failure inside a batch, with the index of the descriptor that failed.
#[derive(Debug)]
pub struct BatchNormalizationError {
    pub index: usize,
    pub error: NormalizationError,
}

/// The subshell (full or angular notation) is in the table.
pub open spec fn is_known_subshell(s: String) -> bool {
    is_known_code(angular_of(s@))
}

/// Every subshell of the list is in the table.
pub open spec fn all_known(codes: Seq<String>) -> bool {
    forall|i: int| 0 <= i < codes.len() ==> is_known_subshell(#[trigger] codes[i])
}

/// `e` reports the first subshell of the list that is not in the table.
pub open spec fn reports_first_unknown(codes: Seq<String>, e: NormalizationError) -> bool {
    exists|i: int|
        0 <= i < codes.len() && !is_known_subshell(#[trigger] codes[i]) && (forall|j: int|
            0 <= j < i ==> is_known_subshell(#[trigger] codes[j])) && e is UnknownSubshell
            && e->UnknownSubshell_0@ == codes[i]@
}

/// Capacity, kappa squared and `max_cumulative_doubled_j` of one subshell.
pub open spec fn properties_of(s: Seq<char>, max_cumulative_doubled_j: i32) -> Seq<i32> {
    let a = angular_of(s);
    seq![max_electrons_of(a) as i32, kappa_squared_of(a) as i32, max_cumulative_doubled_j]
}

/// The properties of each subshell of a list, three per subshell.
pub open spec fn subshell_properties(codes: Seq<String>, max_cumulative_doubled_j: i32) -> Seq<
    i32,
> {
    Seq::new(
        3 * codes.len(),
        |k: int| properties_of(codes[k / 3]@, max_cumulative_doubled_j)[k % 3],
    )
}

/// A descriptor normalizes: three values per subshell, all subshells known,
/// and no zero scale.
pub open spec fn normalizes(d: Seq<i32>, codes: Seq<String>, max_cumulative_doubled_j: i32) -> bool {
    &&& d.len() == 3 * codes.len()
    &&& all_known(codes)
    &&& max_cumulative_doubled_j != 0 || codes.len() == 0
}

/// Each value divided by its scale.
pub open spec fn normalized(d: Seq<i32>, codes: Seq<String>, max_cumulative_doubled_j: i32) -> Seq<
    Fraction,
> {
    Seq::new(
        d.len(),
        |k: int| scaled(d[k] as int, subshell_properties(codes, max_cumulative_doubled_j)[k] as int),
    )
}

/// `e` is the error that normalizing `d` reports: a length mismatch first,
/// then the first unknown subshell, then a zero scale.
pub open spec fn normalize_error(
    d: Seq<i32>,
    codes: Seq<String>,
    max_cumulative_doubled_j: i32,
    e: NormalizationError,
) -> bool {
    if d.len() != 3 * codes.len() {
        e == NormalizationError::LengthMismatch {
            orbital_count: codes.len() as usize,
            descriptor_len: d.len() as usize,
        }
    } else if !all_known(codes) {
        reports_first_unknown(codes, e)
    } else {
        e is DivideByZero
    }
}

proof fn lemma_known_bounds(a: Seq<char>)
    requires
        is_known_code(a),
    ensures
        0 < max_electrons_of(a) <= 14,
        0 < kappa_squared_of(a) <= 49,
{
    crate::subshell::lemma_capacity_and_kappa(a);
    let l = crate::subshell::code_l(a);
    assert(l <= 6);
    assert((l + 1) * (l + 1) <= 49) by (nonlinear_arith)
        requires
            l <= 6,
    ;
    assert(l * l <= 36) by (nonlinear_arith)
        requires
            l <= 6,
    ;
}

/// Capacity, kappa squared and `max_cumulative_doubled_j` of one subshell
/// in full or angular notation.
pub fn get_subshell_properties(subshell: &str, max_cumulative_doubled_j: i32) -> (r: Result<
    Vec<i32>,
    NormalizationError,
>)
    ensures
        is_known_code(angular_of(subshell@)) ==> r is Ok && r->Ok_0@ == properties_of(
            subshell@,
            max_cumulative_doubled_j,
        ),
        !is_known_code(angular_of(subshell@)) ==> r is Err && r->Err_0 is UnknownSubshell
            && r->Err_0->UnknownSubshell_0@ == subshell@,
{
    let code = convert_full_to_angular(subshell);
    let max = get_max_subshell_electrons(code.as_str());
    let kappa = get_kappa_squared(code.as_str());
    match (max, kappa) {
        (Some(m), Some(k)) => {
            proof {
                lemma_known_bounds(code@);
            }
            let mut v: Vec<i32> = Vec::new();
            v.push(m as i32);
            v.push(k);
            v.push(max_cumulative_doubled_j);
            assert(v@ =~= properties_of(subshell@, max_cumulative_doubled_j));
            Ok(v)
        },
        _ => Err(NormalizationError::UnknownSubshell(subshell.to_owned())),
    }
}

/// The properties of each subshell of a list, three per subshell, in order;
/// the first unknown subshell is an error.
pub fn get_subshells_properties(codes: &[String], max_cumulative_doubled_j: i32) -> (r: Result<
    Vec<i32>,
    NormalizationError,
>)
    ensures
        match r {
            Ok(v) => all_known(codes@) && v@ == subshell_properties(
                codes@,
                max_cumulative_doubled_j,
            ),
            Err(e) => !all_known(codes@) && reports_first_unknown(codes@, e),
        },
{
    let mut v: Vec<i32> = Vec::new();
    let mut i: usize = 0;
    while i < codes.len()
        invariant
            i <= codes@.len(),
            v@.len() == 3 * i,
            forall|j: int| 0 <= j < i ==> is_known_subshell(#[trigger] codes@[j]),
            forall|k: int|
                0 <= k < 3 * i ==> #[trigger] v@[k] == properties_of(
                    codes@[k / 3]@,
                    max_cumulative_doubled_j,
                )[k % 3],
        decreases codes@.len() - i,
    {
        match get_subshell_properties(codes[i].as_str(), max_cumulative_doubled_j) {
            Err(e) => {
                assert(!is_known_subshell(codes@[i as int]));
                assert(reports_first_unknown(codes@, e));
                return Err(e);
            },
            Ok(p) => {
                v.push(p[0]);
                v.push(p[1]);
                v.push(p[2]);
            },
        }
        i += 1;
    }
    assert(v@ =~= subshell_properties(codes@, max_cumulative_doubled_j));
    Ok(v)
}

/// `1 / p` for each property; a zero property is an error.
pub fn compute_properties_reciprocals(properties: &[i32]) -> (r: Result<
    Vec<Fraction>,
    NormalizationError,
>)
    ensures
        match r {
            Ok(v) => (forall|i: int| 0 <= i < properties@.len() ==> properties@[i] != 0)
                && v@.len() == properties@.len() && forall|i: int|
                0 <= i < properties@.len() ==> #[trigger] v@[i] == scaled(1, properties@[i] as int),
            Err(e) => (exists|i: int| 0 <= i < properties@.len() && properties@[i] == 0)
                && e is DivideByZero,
        },
{
    let mut v: Vec<Fraction> = Vec::new();
    let mut i: usize = 0;
    while i < properties.len()
        invariant
            i <= properties@.len(),
            v@.len() == i,
            forall|j: int| 0 <= j < i ==> properties@[j] != 0,
            forall|j: int| 0 <= j < i ==> #[trigger] v@[j] == scaled(1, properties@[j] as int),
        decreases properties@.len() - i,
    {
        let p = properties[i];
        if p == 0 {
            return Err(NormalizationError::DivideByZero);
        }
        let p64 = p as i64;
        if p64 > 0 {
            v.push(Fraction { numer: 1, denom: p64 });
        } else {
            v.push(Fraction { numer: -1, denom: -p64 });
        }
        i += 1;
    }
    Ok(v)
}

/// Normalizes one descriptor: each value is multiplied by the reciprocal of
/// its property (capacity, kappa squared, `max_cumulative_doubled_j`).
pub fn normalize_descriptor(
    descriptor: &[i32],
    peel_subshells: &[String],
    max_cumulative_doubled_j: i32,
) -> (r: Result<Vec<Fraction>, NormalizationError>)
    ensures
        match r {
            Ok(v) => normalizes(descriptor@, peel_subshells@, max_cumulative_doubled_j) && v@
                == normalized(descriptor@, peel_subshells@, max_cumulative_doubled_j),
            Err(e) => !normalizes(descriptor@, peel_subshells@, max_cumulative_doubled_j)
                && normalize_error(descriptor@, peel_subshells@, max_cumulative_doubled_j, e),
        },
{
    let n = peel_subshells.len();
    if descriptor.len() % 3 != 0 || descriptor.len() / 3 != n {
        return Err(
            NormalizationError::LengthMismatch { orbital_count: n, descriptor_len: descriptor.len() },
        );
    }
    let props = match get_subshells_properties(peel_subshells, max_cumulative_doubled_j) {
        Ok(p) => p,
        Err(e) => {
            return Err(e);
        },
    };
    let ghost sp = subshell_properties(peel_subshells@, max_cumulative_doubled_j);
    let recips = match compute_properties_reciprocals(props.as_slice()) {
        Ok(r) => r,
        Err(e) => {
            proof {
                let i = choose|i: int| 0 <= i < props@.len() && props@[i] == 0;
                if max_cumulative_doubled_j != 0 {
                    assert(props@[i] == properties_of(
                        peel_subshells@[i / 3]@,
                        max_cumulative_doubled_j,
                    )[i % 3]);
                    lemma_known_bounds(angular_of(peel_subshells@[i / 3]@));
                    assert(is_known_subshell(peel_subshells@[i / 3]));
                }
            }
            return Err(e);
        },
    };
    let mut v: Vec<Fraction> = Vec::new();
    let mut k: usize = 0;
    while k < descriptor.len()
        invariant
            k <= descriptor@.len(),
            descriptor@.len() == props@.len(),
            recips@.len() == props@.len(),
            props@ == sp,
            v@.len() == k,
            forall|j: int| 0 <= j < props@.len() ==> #[trigger] recips@[j] == scaled(1, props@[j] as int),
            forall|j: int| 0 <= j < k ==> #[trigger] v@[j] == scaled(descriptor@[j] as int, sp[j] as int),
        decreases descriptor@.len() - k,
    {
        let x = descriptor[k] as i64;
        let rc = recips[k];
        let numer = if props[k] > 0 {
            x
        } else {
            -x
        };
        v.push(Fraction { numer, denom: rc.denom });
        k += 1;
    }
    proof {
        if n > 0 && max_cumulative_doubled_j == 0 {
            assert(props@[2] == 0);
        }
    }
    assert(v@ =~= normalized(descriptor@, peel_subshells@, max_cumulative_doubled_j));
    Ok(v)
}

/// Normalizes each descriptor; the first failure fails the whole batch and
/// carries its index.
pub fn batch_normalize_descriptors(
    descriptors: &[Vec<i32>],
    peel_subshells: &[String],
    max_cumulative_doubled_j: i32,
) -> (r: Result<Vec<Vec<Fraction>>, BatchNormalizationError>)
    ensures
        match r {
            Ok(v) => v@.len() == descriptors@.len() && forall|i: int|
                0 <= i < descriptors@.len() ==> normalizes(
                    #[trigger] descriptors@[i]@,
                    peel_subshells@,
                    max_cumulative_doubled_j,
                ) && v@[i]@ == normalized(descriptors@[i]@, peel_subshells@, max_cumulative_doubled_j),
            Err(b) => {
                &&& b.index < descriptors@.len()
                &&& forall|j: int|
                    0 <= j < b.index ==> normalizes(
                        #[trigger] descriptors@[j]@,
                        peel_subshells@,
                        max_cumulative_doubled_j,
                    )
                &&& !normalizes(descriptors@[b.index as int]@, peel_subshells@, max_cumulative_doubled_j)
                &&& normalize_error(
                    descriptors@[b.index as int]@,
                    peel_subshells@,
                    max_cumulative_doubled_j,
                    b.error,
                )
            },
        },
{
    let mut v: Vec<Vec<Fraction>> = Vec::new();
    let mut i: usize = 0;
    while i < descriptors.len()
        invariant
            i <= descriptors@.len(),
            v@.len() == i,
            forall|j: int|
                0 <= j < i ==> normalizes(
                    #[trigger] descriptors@[j]@,
                    peel_subshells@,
                    max_cumulative_doubled_j,
                ) && v@[j]@ == normalized(descriptors@[j]@, peel_subshells@, max_cumulative_doubled_j),
        decreases descriptors@.len() - i,
    {
        match normalize_descriptor(descriptors[i].as_slice(), peel_subshells, max_cumulative_doubled_j) {
            Ok(n) => {
                v.push(n);
            },
            Err(e) => {
                return Err(BatchNormalizationError { index: i, error: e });
            },
        }
        i += 1;
    }
    Ok(v)
}

/// Electron count divided by the capacity of a subshell in angular
/// notation (exact match); not clamped.
pub fn normalize_electron_count(num_electrons: i32, subshell: &str) -> (r: Result<
    Fraction,
    NormalizationError,
>)
    ensures
        is_known_code(subshell@) ==> r == Ok::<Fraction, NormalizationError>(
            scaled(num_electrons as int, max_electrons_of(subshell@) as int),
        ),
        !is_known_code(subshell@) ==> r is Err && r->Err_0 is UnknownSubshell
            && r->Err_0->UnknownSubshell_0@ == subshell@,
{
    match get_max_subshell_electrons(subshell) {
        None => Err(NormalizationError::UnknownSubshell(subshell.to_owned())),
        Some(m) => {
            proof {
                lemma_known_bounds(subshell@);
            }
            Ok(Fraction { numer: num_electrons as i64, denom: m as i64 })
        },
    }
}

/// A normalized electron count exceeds one exactly when the count exceeds
/// the capacity.
pub proof fn lemma_electron_count_above_capacity(num_electrons: i32, code: Seq<char>)
    requires
        is_known_code(code),
    ensures
        ({
            let f = scaled(num_electrons as int, max_electrons_of(code) as int);
            &&& f.denom == max_electrons_of(code)
            &&& f.numer == num_electrons
            &&& (f.numer > f.denom <==> num_electrons > max_electrons_of(code))
        }),
{
    lemma_known_bounds(code);
}

/// Dividing a normalized descriptor elementwise by the reciprocals of the
/// properties gives back the original integers.
pub proof fn lemma_normalize_then_divide(
    d: Seq<i32>,
    codes: Seq<String>,
    max_cumulative_doubled_j: i32,
)
    requires
        normalizes(d, codes, max_cumulative_doubled_j),
    ensures
        forall|k: int|
            0 <= k < d.len() ==> quotient_is(
                #[trigger] normalized(d, codes, max_cumulative_doubled_j)[k],
                scaled(1, subshell_properties(codes, max_cumulative_doubled_j)[k] as int),
                d[k] as int,
            ),
{
    let sp = subshell_properties(codes, max_cumulative_doubled_j);
    assert forall|k: int| 0 <= k < d.len() implies quotient_is(
        #[trigger] normalized(d, codes, max_cumulative_doubled_j)[k],
        scaled(1, sp[k] as int),
        d[k] as int,
    ) by {
        let p = sp[k] as int;
        let a = angular_of(codes[k / 3]@);
        assert(is_known_subshell(codes[k / 3]));
        lemma_known_bounds(a);
        assert(p != 0);
        let x = d[k] as int;
        if p > 0 {
            assert(x * p == x * p * 1) by (nonlinear_arith);
        } else {
            assert((-x) * (-p) == x * (-p) * (-1)) by (nonlinear_arith);
        }
    }
}

/// Normalizes only the electron counts (divided by the capacities) and
/// keeps the J values as they are; for callers without a maximum doubled J.
pub fn normalize_descriptor_electrons(descriptor: &[i32], peel_subshells: &[String]) -> (r: Result<
    Vec<Fraction>,
    NormalizationError,
>)
    ensures
        match r {
            Ok(v) => descriptor@.len() == 3 * peel_subshells@.len() && all_known(peel_subshells@)
                && v@.len() == descriptor@.len() && forall|k: int|
                0 <= k < descriptor@.len() ==> #[trigger] v@[k] == if k % 3 == 0 {
                    scaled(
                        descriptor@[k] as int,
                        max_electrons_of(angular_of(peel_subshells@[k as int / 3]@)) as int,
                    )
                } else {
                    scaled(descriptor@[k] as int, 1)
                },
            Err(e) => if descriptor@.len() != 3 * peel_subshells@.len() {
                e == NormalizationError::LengthMismatch {
                    orbital_count: peel_subshells@.len() as usize,
                    descriptor_len: descriptor@.len() as usize,
                }
            } else {
                !all_known(peel_subshells@) && reports_first_unknown(peel_subshells@, e)
            },
        },
{
    let n = peel_subshells.len();
    if descriptor.len() % 3 != 0 || descriptor.len() / 3 != n {
        return Err(
            NormalizationError::LengthMismatch { orbital_count: n, descriptor_len: descriptor.len() },
        );
    }
    let props = match get_subshells_properties(peel_subshells, 1) {
        Ok(p) => p,
        Err(e) => {
            return Err(e);
        },
    };
    let mut v: Vec<Fraction> = Vec::new();
    let mut k: usize = 0;
    while k < descriptor.len()
        invariant
            k <= descriptor@.len(),
            descriptor@.len() == props@.len(),
            descriptor@.len() == 3 * n,
            n == peel_subshells@.len(),
            all_known(peel_subshells@),
            props@ == subshell_properties(peel_subshells@, 1),
            v@.len() == k,
            forall|j: int|
                0 <= j < k ==> #[trigger] v@[j] == if j % 3 == 0 {
                    scaled(
                        descriptor@[j] as int,
                        max_electrons_of(angular_of(peel_subshells@[j / 3]@)) as int,
                    )
                } else {
                    scaled(descriptor@[j] as int, 1)
                },
        decreases descriptor@.len() - k,
    {
        let x = descriptor[k] as i64;
        if k % 3 == 0 {
            proof {
                assert(is_known_subshell(peel_subshells@[k as int / 3]));
                lemma_known_bounds(angular_of(peel_subshells@[k as int / 3]@));
            }
            v.push(Fraction { numer: x, denom: props[k] as i64 });
        } else {
            v.push(Fraction { numer: x, denom: 1 });
        }
        k += 1;
    }
    Ok(v)
}

} // verus!
