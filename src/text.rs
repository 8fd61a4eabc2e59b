use vstd::prelude::*;

verus! {

/// The decimal digit for `d`, which is below ten.
pub open spec fn digit_char(d: nat) -> char {
    if d == 0 {
        '0'
    } else if d == 1 {
        '1'
    } else if d == 2 {
        '2'
    } else if d == 3 {
        '3'
    } else if d == 4 {
        '4'
    } else if d == 5 {
        '5'
    } else if d == 6 {
        '6'
    } else if d == 7 {
        '7'
    } else if d == 8 {
        '8'
    } else {
        '9'
    }
}

/// The decimal text of `n`, without leading zeros.
pub open spec fn decimal(n: nat) -> Seq<char>
    decreases n,
{
    if n < 10 {
        seq![digit_char(n)]
    } else {
        decimal(n / 10).push(digit_char(n % 10))
    }
}

/// How a token amount, given in yoctoNEAR, is shown to a person.
pub uninterp spec fn token_text(yocto: u128) -> Seq<char>;

/// One milliNEAR in yoctoNEAR.
pub const YOCTO_PER_MILLINEAR: u128 = 1_000_000_000_000_000_000_000;

/// Relies on `u32`'s `ToString`: the decimal digits of the number.
#[verifier::external_body]
pub(crate) fn decimal_text(n: u32) -> (r: String)
    ensures
        r@ == decimal(n as nat),
{
    n.to_string()
}

/// Relies on `NearToken::from_millinear` and `NearToken::as_yoctonear`:
/// an amount of milliNEAR, in yoctoNEAR.
#[verifier::external_body]
pub(crate) fn yocto_from_millinear(millinear: u128) -> (r: u128)
    requires
        millinear * YOCTO_PER_MILLINEAR <= u128::MAX,
    ensures
        r == millinear * YOCTO_PER_MILLINEAR,
{
    near_sdk::NearToken::from_millinear(millinear).as_yoctonear()
}

/// Relies on `NearToken`'s `Display`: the text of an amount, unit included.
#[verifier::external_body]
pub(crate) fn display_token(yocto: u128) -> (r: String)
    ensures
        r@ == token_text(yocto),
{
    near_sdk::NearToken::from_yoctonear(yocto).to_string()
}

} // verus!
