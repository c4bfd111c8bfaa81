use vstd::prelude::*;

verus! {

/// The character of the decimal digit `d`.
pub open spec fn digit_char(d: nat) -> char {
    (d + 48) as char
}

/// The decimal digits of `n`, most significant first, without leading zeros.
pub open spec fn decimal(n: nat) -> Seq<char>
    decreases n,
{
    if n < 10 {
        seq![digit_char(n)]
    } else {
        decimal(n / 10).push(digit_char(n % 10))
    }
}

/// The text of the error that refuses a capacity below the smallest category.
pub open spec fn minimum_error_text(minimum: u64) -> Seq<char> {
    "Error, Allocator Minimum Size Is "@ + decimal(minimum as nat)
}

/// The text of the error that refuses a request above the capacity.
pub open spec fn capacity_error_text(size: u64, max_size: u64) -> Seq<char> {
    "The allocator cannot accommodate data with size "@ + decimal(size as nat)
        + " because the maximum capacity of the allocator is "@ + decimal(max_size as nat)
}

/// The text of the error that reports that no free block was found.
pub open spec fn no_fit_error_text(size: u64) -> Seq<char> {
    "Allocation Error, not finding a node that can be allocated for data of size "@ + decimal(
        size as nat,
    )
}

/// Formats with `format!` the error for a capacity below `minimum`: the
/// message followed by `minimum` in decimal, as `Display` for `u64` writes it.
#[verifier::external_body]
pub(crate) fn minimum_error(minimum: u64) -> (r: String)
    ensures
        r@ == minimum_error_text(minimum),
{
    format!("Error, Allocator Minimum Size Is {}", minimum)
}

/// Formats with `format!` the error for a request of `size` above
/// `max_size`, both written in decimal.
#[verifier::external_body]
pub(crate) fn capacity_error(size: u64, max_size: u64) -> (r: String)
    ensures
        r@ == capacity_error_text(size, max_size),
{
    format!(
        "The allocator cannot accommodate data with size {} because the maximum capacity of the allocator is {}",
        size,
        max_size
    )
}

/// Formats with `format!` the error for a request of `size` that found no
/// free block, with `size` written in decimal.
#[verifier::external_body]
pub(crate) fn no_fit_error(size: u64) -> (r: String)
    ensures
        r@ == no_fit_error_text(size),
{
    format!("Allocation Error, not finding a node that can be allocated for data of size {}", size)
}

/// The text of the error for a first-level class `fl` that does not exist.
pub open spec fn first_level_error_text(fl: u64) -> Seq<char> {
    "Error, The first level with index "@ + decimal(fl as nat) + " does not exist"@
}

/// The text of the error for a second-level class `sl` of `fl` that does not
/// exist.
pub open spec fn second_level_error_text(sl: u64, fl: u64) -> Seq<char> {
    "Error, The second level with index "@ + decimal(sl as nat) + " in the first level with index "@
        + decimal(fl as nat) + " does not exist"@
}

/// The text of the error for a link slot beyond the link list of `(fl, sl)`.
pub open spec fn link_range_error_text(link_idx: usize, fl: u64, sl: u64) -> Seq<char> {
    "Error, link index "@ + decimal(link_idx as nat)
        + " mengarahkan ke pada index yang tidak exist pada first level "@ + decimal(fl as nat)
        + ", second level "@ + decimal(sl as nat)
}

/// The text of the error for an empty link slot of `(fl, sl)`.
pub open spec fn link_none_error_text(link_idx: usize, fl: u64, sl: u64) -> Seq<char> {
    "Error, link index "@ + decimal(link_idx as nat)
        + " mengarahkan ke pada index yang bernilai Nonde pada first level "@ + decimal(fl as nat)
        + ", second level "@ + decimal(sl as nat)
}

/// The text of the error for a link that names an entry beyond the block list.
pub open spec fn node_range_error_text(link_idx: usize) -> Seq<char> {
    "Error, link index "@ + decimal(link_idx as nat) + " mengarah ke index yang tidak exist pada linked_list"@
}

/// The text of the error for a link that names an empty entry of the block
/// list.
pub open spec fn node_none_error_text(link_idx: usize) -> Seq<char> {
    "Error, link index "@ + decimal(link_idx as nat) + " mengarah ke index yang bernilai None linked_list"@
}

/// Formats with `format!` the error for a missing first-level class `fl`,
/// written in decimal.
#[verifier::external_body]
pub(crate) fn first_level_error(fl: u64) -> (r: String)
    ensures
        r@ == first_level_error_text(fl),
{
    format!("Error, The first level with index {} does not exist", fl)
}

/// Formats with `format!` the error for a missing second-level class, with
/// `sl` and `fl` written in decimal.
#[verifier::external_body]
pub(crate) fn second_level_error(sl: u64, fl: u64) -> (r: String)
    ensures
        r@ == second_level_error_text(sl, fl),
{
    format!("Error, The second level with index {} in the first level with index {} does not exist", sl, fl)
}

/// Formats with `format!` the error for a link slot out of range, with the
/// numbers written in decimal.
#[verifier::external_body]
pub(crate) fn link_range_error(link_idx: usize, fl: u64, sl: u64) -> (r: String)
    ensures
        r@ == link_range_error_text(link_idx, fl, sl),
{
    format!(
        "Error, link index {} mengarahkan ke pada index yang tidak exist pada first level {}, second level {}",
        link_idx,
        fl,
        sl
    )
}

/// Formats with `format!` the error for an empty link slot, with the numbers
/// written in decimal.
#[verifier::external_body]
pub(crate) fn link_none_error(link_idx: usize, fl: u64, sl: u64) -> (r: String)
    ensures
        r@ == link_none_error_text(link_idx, fl, sl),
{
    format!(
        "Error, link index {} mengarahkan ke pada index yang bernilai Nonde pada first level {}, second level {}",
        link_idx,
        fl,
        sl
    )
}

/// Formats with `format!` the error for a link naming an entry beyond the
/// block list, with `link_idx` written in decimal.
#[verifier::external_body]
pub(crate) fn node_range_error(link_idx: usize) -> (r: String)
    ensures
        r@ == node_range_error_text(link_idx),
{
    format!("Error, link index {} mengarah ke index yang tidak exist pada linked_list", link_idx)
}

/// Formats with `format!` the error for a link naming an empty entry, with
/// `link_idx` written in decimal.
#[verifier::external_body]
pub(crate) fn node_none_error(link_idx: usize) -> (r: String)
    ensures
        r@ == node_none_error_text(link_idx),
{
    format!("Error, link index {} mengarah ke index yang bernilai None linked_list", link_idx)
}

} // verus!
