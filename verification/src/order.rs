//! The order of versions.
use crate::grammar;
use crate::grammar::VersionView;
use crate::text;
use vstd::prelude::*;

verus! {

/// Whether `a` comes before `b` where strings are ordered as in a dictionary.
pub open spec fn text_precedes(a: Seq<char>, b: Seq<char>) -> bool
    decreases a.len(),
{
    if a.len() == 0 || b.len() == 0 {
        a.len() < b.len()
    } else if a[0] != b[0] {
        a[0] < b[0]
    } else {
        text_precedes(a.drop_first(), b.drop_first())
    }
}

/// Whether there is nothing but digits in `s`.
pub open spec fn has_only_digits(s: Seq<char>) -> bool {
    forall|i: int| 0 <= i < s.len() ==> grammar::is_digit(#[trigger] s[i])
}

/// Whether the identifier `a` comes before `b`. Numbers come before all other
/// identifiers and are compared by their values, and then by the number of
/// leading zeros. The others are compared as strings.
pub open spec fn identifier_precedes(a: Seq<char>, b: Seq<char>) -> bool {
    if has_only_digits(a) && has_only_digits(b) {
        let (m, n) = (grammar::number_value(a), grammar::number_value(b));
        m < n || m == n && a.len() < b.len()
    } else if has_only_digits(a) || has_only_digits(b) {
        has_only_digits(a)
    } else {
        text_precedes(a, b)
    }
}

/// The first identifier of the dot-separated list `s`, and the rest of the
/// list if there are more.
pub open spec fn first_identifier(s: Seq<char>) -> (Seq<char>, Option<Seq<char>>) {
    match text::split_first(s, '.') {
        Some((first, rest)) => (first, Some(rest)),
        None => (s, None),
    }
}

/// Whether the dot-separated list of identifiers `a` comes before `b`: the
/// first identifier that differs decides, or else the shorter list comes first.
pub open spec fn list_precedes(a: Seq<char>, b: Seq<char>) -> bool
    decreases a.len(),
{
    let (first_a, rest_a) = first_identifier(a);
    let (first_b, rest_b) = first_identifier(b);
    if first_a != first_b {
        identifier_precedes(first_a, first_b)
    } else {
        match (rest_a, rest_b) {
            (Some(rest_a), Some(rest_b)) => {
                proof {
                    text::lemma_split_first(a, '.');
                }
                list_precedes(rest_a, rest_b)
            },
            _ => rest_a is None && rest_b is Some,
        }
    }
}

impl VersionView {
    /// Whether this version is lower than `other`: the first difference in
    /// major, minor, patch, prerelease and build metadata decides. A release
    /// comes after its prereleases.
    pub open spec fn precedes(self, other: VersionView) -> bool {
        if self.major != other.major {
            self.major < other.major
        } else if self.minor != other.minor {
            self.minor < other.minor
        } else if self.patch != other.patch {
            self.patch < other.patch
        } else if self.pre.len() == 0 || other.pre.len() == 0 {
            if self.pre.len() == other.pre.len() {
                list_precedes(self.build, other.build)
            } else {
                other.pre.len() == 0
            }
        } else if self.pre != other.pre {
            list_precedes(self.pre, other.pre)
        } else {
            list_precedes(self.build, other.build)
        }
    }
}

/// The order of strings is total.
proof fn lemma_text_order(a: Seq<char>, b: Seq<char>, c: Seq<char>)
    ensures
        text_precedes(a, b) ==> !text_precedes(b, a),
        a == b || text_precedes(a, b) || text_precedes(b, a),
        text_precedes(a, b) && text_precedes(b, c) ==> text_precedes(a, c),
    decreases a.len(),
{
    if a.len() > 0 && b.len() > 0 {
        lemma_text_order(a.drop_first(), b.drop_first(), c.drop_first());
        if a[0] == b[0] && a.drop_first() == b.drop_first() {
            assert(a =~= seq![a[0]] + a.drop_first());
            assert(b =~= seq![b[0]] + b.drop_first());
        }
    }
}

/// Strings of digits with the same length and value are the same.
proof fn lemma_same_number(a: Seq<char>, b: Seq<char>)
    requires
        has_only_digits(a),
        has_only_digits(b),
        a.len() == b.len(),
        grammar::number_value(a) == grammar::number_value(b),
    ensures
        a == b,
    decreases a.len(),
{
    if a.len() > 0 {
        assert(grammar::is_digit(a.last()) && grammar::is_digit(b.last()));
        lemma_same_number(a.drop_last(), b.drop_last());
        assert(a =~= a.drop_last().push(a.last()));
        assert(b =~= b.drop_last().push(b.last()));
    }
}

/// The order of identifiers is total.
proof fn lemma_identifier_order(a: Seq<char>, b: Seq<char>, c: Seq<char>)
    ensures
        identifier_precedes(a, b) ==> !identifier_precedes(b, a),
        a == b || identifier_precedes(a, b) || identifier_precedes(b, a),
        identifier_precedes(a, b) && identifier_precedes(b, c) ==> identifier_precedes(a, c),
{
    lemma_text_order(a, b, c);
    if has_only_digits(a) && has_only_digits(b) && a.len() == b.len() && grammar::number_value(a)
        == grammar::number_value(b) {
        lemma_same_number(a, b);
    }
}

/// The order of lists of identifiers is total.
proof fn lemma_list_order(a: Seq<char>, b: Seq<char>, c: Seq<char>)
    ensures
        list_precedes(a, b) ==> !list_precedes(b, a),
        a == b || list_precedes(a, b) || list_precedes(b, a),
        list_precedes(a, b) && list_precedes(b, c) ==> list_precedes(a, c),
    decreases a.len(),
{
    let (first_a, rest_a) = first_identifier(a);
    let (first_b, rest_b) = first_identifier(b);
    let (first_c, rest_c) = first_identifier(c);
    text::lemma_split_first(a, '.');
    text::lemma_split_first(b, '.');
    lemma_identifier_order(first_a, first_b, first_c);
    lemma_identifier_order(first_b, first_a, first_c);
    if rest_a is Some && rest_b is Some {
        let tail_c = rest_c.unwrap_or(Seq::empty());
        lemma_list_order(rest_a.unwrap(), rest_b.unwrap(), tail_c);
    }
}

/// Nothing comes before the empty list.
pub proof fn lemma_empty_list_is_first(s: Seq<char>)
    ensures
        !list_precedes(s, Seq::empty()),
{
    text::lemma_split_first(Seq::empty(), '.');
}

/// The order of versions is total: of two different versions one is lower, and
/// what is lower than a lower version is lower too.
pub proof fn law_order_is_total(a: VersionView, b: VersionView, c: VersionView)
    ensures
        a.precedes(b) ==> !b.precedes(a),
        a == b || a.precedes(b) || b.precedes(a),
        a.precedes(b) && b.precedes(c) ==> a.precedes(c),
{
    lemma_list_order(a.pre, b.pre, c.pre);
    lemma_list_order(a.build, b.build, c.build);
    if !a.precedes(b) && !b.precedes(a) {
        assert(a =~= b);
    }
}

} // verus!
