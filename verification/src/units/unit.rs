//! Dimension arithmetic and unit symbols.

use vstd::prelude::*;
use crate::units::error::Dimensions;
use crate::graph::{decimal, decimal_chars};
use crate::text::{chars_of, extend, join_chars, join_spec, string_from_chars, views};

verus! {

/// The decimal text of a signed integer, as `Display` writes it.
pub open spec fn signed_decimal(n: int) -> Seq<char> {
    if n < 0 {
        seq!['-'] + decimal((-n) as nat)
    } else {
        decimal(n as nat)
    }
}

/// Decimal text of an `i8`.
pub fn i8_chars(n: i8) -> (res: Vec<char>)
    ensures
        res@ == signed_decimal(n as int),
{
    if n < 0 {
        let m: u64 = (-(n as i64)) as u64;
        let mut r: Vec<char> = Vec::new();
        r.push('-');
        let d = decimal_chars(m);
        extend(&mut r, d.as_slice());
        r
    } else {
        decimal_chars(n as u64)
    }
}

/// The symbol of a unit raised to `power`: unchanged for power 1, empty for
/// an empty symbol, otherwise the symbol, `^` and the power.
pub open spec fn spec_power_symbol(symbol: Seq<char>, power: int) -> Seq<char> {
    if symbol.len() == 0 {
        Seq::<char>::empty()
    } else if power == 1 {
        symbol
    } else {
        symbol + seq!['^'] + signed_decimal(power)
    }
}

/// Builds a symbol for a unit raised to a power, like `m^2` or `s^-2`.
pub fn build_power_symbol(symbol: &str, power: i8) -> (res: String)
    ensures
        res@ == spec_power_symbol(symbol@, power as int),
{
    let s = chars_of(symbol);
    if s.len() == 0 {
        return String::new();
    }
    if power == 1 {
        return string_from_chars(s.as_slice());
    }
    let mut r = s;
    r.push('^');
    let p = i8_chars(power);
    extend(&mut r, p.as_slice());
    string_from_chars(r.as_slice())
}

/// The symbol of a product or quotient of two units: empty if either is,
/// otherwise `a`, the operator and `b`.
pub open spec fn spec_compound_symbol(a: Seq<char>, op: Seq<char>, b: Seq<char>) -> Seq<char> {
    if a.len() == 0 || b.len() == 0 {
        Seq::<char>::empty()
    } else {
        a + op + b
    }
}

/// Builds a compound symbol like `m/s` or `N*m` from two component symbols.
pub fn build_compound_symbol(a: &str, op: &str, b: &str) -> (res: String)
    ensures
        res@ == spec_compound_symbol(a@, op@, b@),
{
    let ac = chars_of(a);
    let bc = chars_of(b);
    if ac.len() == 0 || bc.len() == 0 {
        return String::new();
    }
    let mut r = ac;
    let oc = chars_of(op);
    extend(&mut r, oc.as_slice());
    extend(&mut r, bc.as_slice());
    string_from_chars(r.as_slice())
}

/// The dimensions of a product: componentwise sums.
pub open spec fn dims_sum(a: Seq<i8>, b: Seq<i8>) -> Seq<int> {
    Seq::new(8, |i: int| a[i] + b[i])
}

/// The dimensions of a quotient: componentwise differences.
pub open spec fn dims_difference(a: Seq<i8>, b: Seq<i8>) -> Seq<int> {
    Seq::new(8, |i: int| a[i] - b[i])
}

/// The dimensions of a unit raised to `power`: each scaled by it.
pub open spec fn dims_scaled(a: Seq<i8>, power: int) -> Seq<int> {
    Seq::new(8, |i: int| a[i] * power)
}

/// Every component fits in an `i8`.
pub open spec fn fits_i8(d: Seq<int>) -> bool {
    forall|i: int| 0 <= i < d.len() ==> i8::MIN <= #[trigger] d[i] <= i8::MAX
}

/// Dimensions of the product of two units.
pub fn multiply_dimensions(a: &Dimensions, b: &Dimensions) -> (res: Dimensions)
    requires
        fits_i8(dims_sum(a@, b@)),
    ensures
        res@.map_values(|x: i8| x as int) == dims_sum(a@, b@),
{
    let mut dims: [i8; 8] = [0i8; 8];
    let mut i: usize = 0;
    while i < 8
        invariant
            i <= 8,
            fits_i8(dims_sum(a@, b@)),
            forall|j: int| 0 <= j < i ==> dims@[j] as int == a@[j] + b@[j],
        decreases 8 - i,
    {
        assert(i8::MIN <= dims_sum(a@, b@)[i as int] <= i8::MAX);
        dims[i] = a[i] + b[i];
        i = i + 1;
    }
    assert(dims@.map_values(|x: i8| x as int) =~= dims_sum(a@, b@));
    dims
}

/// Dimensions of the quotient of two units.
pub fn divide_dimensions(a: &Dimensions, b: &Dimensions) -> (res: Dimensions)
    requires
        fits_i8(dims_difference(a@, b@)),
    ensures
        res@.map_values(|x: i8| x as int) == dims_difference(a@, b@),
{
    let mut dims: [i8; 8] = [0i8; 8];
    let mut i: usize = 0;
    while i < 8
        invariant
            i <= 8,
            fits_i8(dims_difference(a@, b@)),
            forall|j: int| 0 <= j < i ==> dims@[j] as int == a@[j] - b@[j],
        decreases 8 - i,
    {
        assert(i8::MIN <= dims_difference(a@, b@)[i as int] <= i8::MAX);
        dims[i] = a[i] - b[i];
        i = i + 1;
    }
    assert(dims@.map_values(|x: i8| x as int) =~= dims_difference(a@, b@));
    dims
}

/// Dimensions of a unit raised to `power`.
pub fn raise_dimensions(a: &Dimensions, power: i8) -> (res: Dimensions)
    requires
        fits_i8(dims_scaled(a@, power as int)),
    ensures
        res@.map_values(|x: i8| x as int) == dims_scaled(a@, power as int),
{
    let mut dims: [i8; 8] = [0i8; 8];
    let mut i: usize = 0;
    while i < 8
        invariant
            i <= 8,
            fits_i8(dims_scaled(a@, power as int)),
            forall|j: int| 0 <= j < i ==> dims@[j] as int == a@[j] * power,
        decreases 8 - i,
    {
        assert(i8::MIN <= dims_scaled(a@, power as int)[i as int] <= i8::MAX);
        dims[i] = a[i] * power;
        i = i + 1;
    }
    assert(dims@.map_values(|x: i8| x as int) =~= dims_scaled(a@, power as int));
    dims
}

/// Two dimension vectors agree on the seven SI dimensions.
pub open spec fn spec_same_si(a: Seq<i8>, b: Seq<i8>) -> bool {
    forall|i: int| 0 <= i < 7 ==> a[i] == b[i]
}

/// True if the two dimension vectors agree on the SI dimensions (0 to 6).
pub fn same_si_dimensions(a: &Dimensions, b: &Dimensions) -> (res: bool)
    ensures
        res == spec_same_si(a@, b@),
{
    let mut i: usize = 0;
    while i < 7
        invariant
            i <= 7,
            forall|j: int| 0 <= j < i ==> a@[j] == b@[j],
        decreases 7 - i,
    {
        if a[i] != b[i] {
            return false;
        }
        i = i + 1;
    }
    true
}

/// True if no SI dimension (0 to 6) is non-zero.
pub fn is_dimensionless(a: &Dimensions) -> (res: bool)
    ensures
        res == (forall|i: int| 0 <= i < 7 ==> a@[i] == 0),
{
    let mut i: usize = 0;
    while i < 7
        invariant
            i <= 7,
            forall|j: int| 0 <= j < i ==> a@[j] == 0,
        decreases 7 - i,
    {
        if a[i] != 0 {
            return false;
        }
        i = i + 1;
    }
    true
}

/// The SI base unit symbol of dimension `i` (0 to 6).
pub open spec fn base_symbol(i: int) -> Seq<char> {
    if i == 0 { seq!['m'] }
    else if i == 1 { seq!['k', 'g'] }
    else if i == 2 { seq!['s'] }
    else if i == 3 { seq!['A'] }
    else if i == 4 { seq!['K'] }
    else if i == 5 { seq!['m', 'o', 'l'] }
    else { seq!['c', 'd'] }
}

fn base_symbol_chars(i: usize) -> (res: Vec<char>)
    requires
        i < 7,
    ensures
        res@ == base_symbol(i as int),
{
    let v: Vec<char> = if i == 0 { vec!['m'] }
        else if i == 1 { vec!['k', 'g'] }
        else if i == 2 { vec!['s'] }
        else if i == 3 { vec!['A'] }
        else if i == 4 { vec!['K'] }
        else if i == 5 { vec!['m', 'o', 'l'] }
        else { vec!['c', 'd'] };
    assert(v@ == base_symbol(i as int));
    v
}

/// The named SI units, for dimension vectors that match one exactly on the
/// seven SI dimensions (the dimensionless vector only when its eighth
/// entry is zero too).
pub open spec fn named_si_symbol(d: Seq<i8>) -> Option<Seq<char>> {
    let si = |a: int, b: int, c: int, e: int, f: int, g: int, h: int|
        d[0] == a && d[1] == b && d[2] == c && d[3] == e && d[4] == f && d[5] == g && d[6] == h;
    if si(0, 0, 0, 0, 0, 0, 0) && d[7] == 0 { Some(Seq::<char>::empty()) }
    else if si(1, 0, 0, 0, 0, 0, 0) { Some(seq!['m']) }
    else if si(0, 1, 0, 0, 0, 0, 0) { Some(seq!['k', 'g']) }
    else if si(0, 0, 1, 0, 0, 0, 0) { Some(seq!['s']) }
    else if si(0, 0, 0, 1, 0, 0, 0) { Some(seq!['A']) }
    else if si(0, 0, 0, 0, 1, 0, 0) { Some(seq!['K']) }
    else if si(0, 0, 0, 0, 0, 1, 0) { Some(seq!['m', 'o', 'l']) }
    else if si(0, 0, 0, 0, 0, 0, 1) { Some(seq!['c', 'd']) }
    else if si(1, 1, -2, 0, 0, 0, 0) { Some(seq!['N']) }
    else if si(2, 1, -2, 0, 0, 0, 0) { Some(seq!['J']) }
    else if si(2, 1, -3, 0, 0, 0, 0) { Some(seq!['W']) }
    else if si(-1, 1, -2, 0, 0, 0, 0) { Some(seq!['P', 'a']) }
    else if si(0, 0, -1, 0, 0, 0, 0) { Some(seq!['H', 'z']) }
    else { None }
}

/// A base symbol with an exponent: the bare symbol for exponent 1.
pub open spec fn power_part(i: int, e: int) -> Seq<char> {
    if e == 1 {
        base_symbol(i)
    } else {
        base_symbol(i) + seq!['^'] + decimal(e as nat)
    }
}

/// The numerator parts among the first `k` dimensions: one per positive
/// dimension, in order.
pub open spec fn numerator_parts(d: Seq<i8>, k: int) -> Seq<Seq<char>>
    decreases k,
{
    if k <= 0 {
        Seq::<Seq<char>>::empty()
    } else {
        let r = numerator_parts(d, k - 1);
        if d[k - 1] > 0 { r.push(power_part(k - 1, d[k - 1] as int)) } else { r }
    }
}

/// The denominator parts among the first `k` dimensions: one per negative
/// dimension, with its magnitude as exponent.
pub open spec fn denominator_parts(d: Seq<i8>, k: int) -> Seq<Seq<char>>
    decreases k,
{
    if k <= 0 {
        Seq::<Seq<char>>::empty()
    } else {
        let r = denominator_parts(d, k - 1);
        if d[k - 1] < 0 { r.push(power_part(k - 1, -(d[k - 1] as int))) } else { r }
    }
}

/// The negative-exponent parts among the first `k` dimensions, used when
/// there is no numerator: `s^-1`, `m^-2`.
pub open spec fn negative_parts(d: Seq<i8>, k: int) -> Seq<Seq<char>>
    decreases k,
{
    if k <= 0 {
        Seq::<Seq<char>>::empty()
    } else {
        let r = negative_parts(d, k - 1);
        if d[k - 1] < 0 {
            r.push(base_symbol(k - 1) + seq!['^', '-'] + decimal((-(d[k - 1] as int)) as nat))
        } else {
            r
        }
    }
}

/// The SI symbol of a dimension vector: a named unit where one matches,
/// otherwise the base units with positive exponents joined by `*`, then `/`
/// and those with negative exponents; with no positive exponent, negative
/// exponents written out; empty when every SI dimension is zero.
pub open spec fn spec_si_symbol(d: Seq<i8>) -> Seq<char> {
    match named_si_symbol(d) {
        Some(s) => s,
        None => {
            let num = numerator_parts(d, 7);
            let den = denominator_parts(d, 7);
            let star = seq!['*'];
            if num.len() == 0 && den.len() == 0 {
                Seq::<char>::empty()
            } else if den.len() == 0 {
                join_spec(num, star)
            } else if num.len() == 0 {
                join_spec(negative_parts(d, 7), star)
            } else {
                join_spec(num, star) + seq!['/'] + join_spec(den, star)
            }
        },
    }
}

fn named_si_chars(d: &Dimensions) -> (res: Option<Vec<char>>)
    ensures
        match res {
            Some(v) => named_si_symbol(d@) == Some(v@),
            None => named_si_symbol(d@) is None,
        },
{
    let si = |a: i8, b: i8, c: i8, e: i8, f: i8, g: i8, h: i8| -> (r: bool)
        ensures r == (d@[0] == a && d@[1] == b && d@[2] == c && d@[3] == e && d@[4] == f && d@[5] == g && d@[6] == h),
        { d[0] == a && d[1] == b && d[2] == c && d[3] == e && d[4] == f && d[5] == g && d[6] == h };
    let v: Vec<char> = if si(0, 0, 0, 0, 0, 0, 0) && d[7] == 0 { Vec::new() }
        else if si(1, 0, 0, 0, 0, 0, 0) { vec!['m'] }
        else if si(0, 1, 0, 0, 0, 0, 0) { vec!['k', 'g'] }
        else if si(0, 0, 1, 0, 0, 0, 0) { vec!['s'] }
        else if si(0, 0, 0, 1, 0, 0, 0) { vec!['A'] }
        else if si(0, 0, 0, 0, 1, 0, 0) { vec!['K'] }
        else if si(0, 0, 0, 0, 0, 1, 0) { vec!['m', 'o', 'l'] }
        else if si(0, 0, 0, 0, 0, 0, 1) { vec!['c', 'd'] }
        else if si(1, 1, -2, 0, 0, 0, 0) { vec!['N'] }
        else if si(2, 1, -2, 0, 0, 0, 0) { vec!['J'] }
        else if si(2, 1, -3, 0, 0, 0, 0) { vec!['W'] }
        else if si(-1, 1, -2, 0, 0, 0, 0) { vec!['P', 'a'] }
        else if si(0, 0, -1, 0, 0, 0, 0) { vec!['H', 'z'] }
        else { return None; };
    Some(v)
}

/// The SI unit symbol for a dimension vector: a named unit (N, J, W, Pa,
/// Hz or a base unit) where one matches, otherwise built from base units.
pub fn si_symbol(dims: &Dimensions) -> (res: String)
    requires
        forall|i: int| 0 <= i < 7 ==> dims@[i] != i8::MIN,
    ensures
        res@ == spec_si_symbol(dims@),
{
    if let Some(v) = named_si_chars(dims) {
        return string_from_chars(v.as_slice());
    }
    let mut num: Vec<Vec<char>> = Vec::new();
    let mut den: Vec<Vec<char>> = Vec::new();
    let mut neg: Vec<Vec<char>> = Vec::new();
    let mut i: usize = 0;
    while i < 7
        invariant
            i <= 7,
            forall|j: int| 0 <= j < 7 ==> dims@[j] != i8::MIN,
            views(num@) == numerator_parts(dims@, i as int),
            views(den@) == denominator_parts(dims@, i as int),
            views(neg@) == negative_parts(dims@, i as int),
        decreases 7 - i,
    {
        let d = dims[i];
        let base = base_symbol_chars(i);
        if d > 0 {
            let mut part = base;
            if d != 1 {
                part.push('^');
                let e = decimal_chars(d as u64);
                extend(&mut part, e.as_slice());
            }
            assert((d as u64) as nat == d as int);
            assert(part@ == power_part(i as int, d as int));
            proof { crate::text::lemma_views_push(num@, part); }
            num.push(part);
        } else if d < 0 {
            let a: u64 = (-(d as i64)) as u64;
            let mut part = crate::text::copy_chars(base.as_slice());
            if a != 1 {
                part.push('^');
                let e = decimal_chars(a);
                extend(&mut part, e.as_slice());
            }
            assert(a as nat == -(d as int));
            assert(part@ == power_part(i as int, -(d as int)));
            proof { crate::text::lemma_views_push(den@, part); }
            den.push(part);
            let mut np = base;
            np.push('^');
            np.push('-');
            let e = decimal_chars(a);
            extend(&mut np, e.as_slice());
            assert(np@ == base_symbol(i as int) + seq!['^', '-'] + decimal((-(d as int)) as nat));
            proof { crate::text::lemma_views_push(neg@, np); }
            neg.push(np);
        }
        i = i + 1;
    }
    let star: [char; 1] = ['*'];
    assert(star@ == seq!['*']);
    proof {
        assert(num@.map_values(|v: Vec<char>| v@) == views(num@));
        assert(den@.map_values(|v: Vec<char>| v@) == views(den@));
        assert(neg@.map_values(|v: Vec<char>| v@) == views(neg@));
    }
    if num.len() == 0 && den.len() == 0 {
        String::new()
    } else if den.len() == 0 {
        let j = join_chars(&num, &star);
        string_from_chars(j.as_slice())
    } else if num.len() == 0 {
        let j = join_chars(&neg, &star);
        string_from_chars(j.as_slice())
    } else {
        let mut j = join_chars(&num, &star);
        j.push('/');
        let k = join_chars(&den, &star);
        extend(&mut j, k.as_slice());
        string_from_chars(j.as_slice())
    }
}

} // verus!
