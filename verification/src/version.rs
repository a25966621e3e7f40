//! The order of release versions.

use semver::Version;
use std::cmp::Ordering;
use vstd::prelude::*;

verus! {

/// How the semantic versions written `a` and `b` compare according to
/// `semver`: 1 where `a` is the later one, -1 where `b` is, 0 where neither
/// is; `None` where `a` or `b` is not a semantic version.
pub uninterp spec fn semver_order(a: Seq<char>, b: Seq<char>) -> Option<i8>;

/// Whether `text` is a semantic version according to `semver`.
pub open spec fn is_version(text: Seq<char>) -> bool {
    semver_order(text, text) is Some
}

/// Whether `a` and `b` are semantic versions and `a` is the later one.
pub open spec fn is_later_version(a: Seq<char>, b: Seq<char>) -> bool {
    semver_order(a, b) == Some(1i8)
}

/// Whether `a` and `b` are semantic versions and `a` is not the earlier
/// one.
pub open spec fn is_not_earlier_version(a: Seq<char>, b: Seq<char>) -> bool {
    is_not_earlier(semver_order(a, b))
}

/// Whether `order` says "later" or "neither".
pub open spec fn is_not_earlier(order: Option<i8>) -> bool {
    order == Some(0i8) || order == Some(1i8)
}

/// `order` seen from the other side.
pub open spec fn opposite(order: Option<i8>) -> Option<i8> {
    if order == Some(1i8) {
        Some(-1i8)
    } else if order == Some(-1i8) {
        Some(1i8)
    } else {
        order
    }
}

/// Whether `order` is one of the three outcomes of a comparison, or none.
pub open spec fn is_outcome(order: Option<i8>) -> bool {
    order is None || order == Some(-1i8) || order == Some(0i8) || order == Some(1i8)
}

/// Whether both `a` and `b` are semantic versions.
pub open spec fn are_versions(a: Seq<char>, b: Seq<char>) -> bool {
    is_version(a) && is_version(b)
}

/// What a total order asks of three comparisons, of a first with a second,
/// of the second with a third and of the first with the third: where
/// neither the first nor the second is the earlier one, the first is not
/// earlier than the third, and it is later where one of the two is.
pub open spec fn is_transitive(
    first_second: Option<i8>,
    second_third: Option<i8>,
    first_third: Option<i8>,
) -> bool {
    is_not_earlier(first_second) && is_not_earlier(second_third) ==> is_not_earlier(first_third)
        && (first_second == Some(1i8) || second_third == Some(1i8) ==> first_third == Some(1i8))
}

/// `semver::Version::parse` of both texts and the `Ord` of `Version` on the
/// two versions. Trusted: the outcome depends on the two texts alone and
/// is there exactly where both are semantic versions; and, the versions
/// being totally ordered, the comparison the other way round gives the
/// opposite, and the order is transitive.
#[verifier::external_body]
pub(crate) fn compare_versions(a: &str, b: &str) -> (order: Option<i8>)
    ensures
        order == semver_order(a@, b@),
        is_outcome(order),
        (order is Some) == are_versions(a@, b@),
        semver_order(b@, a@) == opposite(order),
        forall|c: Seq<char>|
            is_transitive(order, #[trigger] semver_order(b@, c), semver_order(a@, c)),
{
    match (Version::parse(a), Version::parse(b)) {
        (Ok(a), Ok(b)) => match a.cmp(&b) {
            Ordering::Less => Some(-1),
            Ordering::Equal => Some(0),
            Ordering::Greater => Some(1),
        },
        _ => None,
    }
}

} // verus!
