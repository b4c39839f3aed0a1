//! What holds of versions: how they are spelled, and how they are ordered.
use crate::grammar;
use crate::grammar::{VersionText, VersionView};
use crate::order;
use crate::text;
use vstd::prelude::*;

verus! {

/// `major.minor.patch`, with `-pre` and `+build` behind it where these are not
/// empty.
pub open spec fn full_text(
    major: Seq<char>,
    minor: Seq<char>,
    patch: Seq<char>,
    pre: Seq<char>,
    build: Seq<char>,
) -> Seq<char> {
    let numbers = major + seq!['.'] + minor + seq!['.'] + patch;
    let with_pre = if pre.len() > 0 {
        numbers + seq!['-'] + pre
    } else {
        numbers
    };
    if build.len() > 0 {
        with_pre + seq!['+'] + build
    } else {
        with_pre
    }
}

/// Whether the five parts are those of a version: numbers that fit a `u64`,
/// and lists of identifiers that may be empty.
pub open spec fn are_parts(
    major: Seq<char>,
    minor: Seq<char>,
    patch: Seq<char>,
    pre: Seq<char>,
    build: Seq<char>,
) -> bool {
    &&& grammar::is_number(major) && grammar::number_value(major) <= u64::MAX
    &&& grammar::is_number(minor) && grammar::number_value(minor) <= u64::MAX
    &&& grammar::is_number(patch) && grammar::number_value(patch) <= u64::MAX
    &&& pre.len() > 0 ==> grammar::is_identifier_list(pre) && grammar::has_plain_numbers(pre)
    &&& build.len() > 0 ==> grammar::is_identifier_list(build)
}

/// The pieces with the given parts.
pub(crate) open spec fn pieces(
    major: Seq<char>,
    minor: Seq<char>,
    patch: Seq<char>,
    pre: Seq<char>,
    build: Seq<char>,
) -> VersionText {
    VersionText {
        major,
        minor,
        patch,
        pre: if pre.len() > 0 {
            Some(pre)
        } else {
            None
        },
        build: if build.len() > 0 {
            Some(build)
        } else {
            None
        },
    }
}

/// The text of a version is made of its parts.
pub(crate) proof fn lemma_pieces_text(
    major: Seq<char>,
    minor: Seq<char>,
    patch: Seq<char>,
    pre: Seq<char>,
    build: Seq<char>,
)
    requires
        are_parts(major, minor, patch, pre, build),
    ensures
        ({
            let t = pieces(major, minor, patch, pre, build);
            &&& t.spells(full_text(major, minor, patch, pre, build))
            &&& t.in_range()
            &&& t.without_build() == full_text(major, minor, patch, pre, Seq::empty())
        }),
{
    let t = pieces(major, minor, patch, pre, build);
    assert(t.numbers() =~= major + seq!['.'] + minor + seq!['.'] + patch);
}

/// Each text that is made of the parts of a version is read as the version with
/// these numbers and lists.
pub proof fn law_full_text_is_read(
    major: Seq<char>,
    minor: Seq<char>,
    patch: Seq<char>,
    pre: Seq<char>,
    build: Seq<char>,
)
    requires
        are_parts(major, minor, patch, pre, build),
    ensures
        grammar::version_of(full_text(major, minor, patch, pre, build)) == Some(
            VersionView {
                major: grammar::number_value(major),
                minor: grammar::number_value(minor),
                patch: grammar::number_value(patch),
                pre,
                build,
            },
        ),
{
    let t = pieces(major, minor, patch, pre, build);
    lemma_pieces_text(major, minor, patch, pre, build);
    grammar::lemma_spelled(t, full_text(major, minor, patch, pre, build));
    assert(t.version().pre =~= pre);
    assert(t.version().build =~= build);
}

/// What is read as a version is made of the parts of that version.
pub proof fn law_version_has_full_text(s: Seq<char>) -> (r: (Seq<char>, Seq<char>, Seq<char>))
    requires
        grammar::version_of(s) is Some,
    ensures
        ({
            let v = grammar::version_of(s).unwrap();
            &&& are_parts(r.0, r.1, r.2, v.pre, v.build)
            &&& s == full_text(r.0, r.1, r.2, v.pre, v.build)
            &&& v.major == grammar::number_value(r.0)
            &&& v.minor == grammar::number_value(r.1)
            &&& v.patch == grammar::number_value(r.2)
        }),
{
    let t = choose|t: VersionText| t.spells(s) && t.in_range();
    let v = t.version();
    grammar::lemma_spelled(t, s);
    assert(t.numbers() =~= t.major + seq!['.'] + t.minor + seq!['.'] + t.patch);
    (t.major, t.minor, t.patch)
}

/// A major version that is not 0 stands, alone, for the lowest version with it,
/// and `0.` with a minor version that is not 0 for the lowest version with
/// that.
pub proof fn law_canonical_text_is_padded(number: Seq<char>)
    requires
        grammar::is_number(number),
        0 < grammar::number_value(number) <= u64::MAX,
    ensures
        grammar::padded_version(number) == Some(
            VersionView {
                major: grammar::number_value(number),
                minor: 0,
                patch: 0,
                pre: Seq::empty(),
                build: Seq::empty(),
            },
        ),
        grammar::padded_version(seq!['0', '.'] + number) == Some(
            VersionView {
                major: 0,
                minor: grammar::number_value(number),
                patch: 0,
                pre: Seq::empty(),
                build: Seq::empty(),
            },
        ),
{
    let zero = seq!['0'];
    let none = Seq::<char>::empty();
    grammar::lemma_zero();
    law_full_text_is_read(number, zero, zero, none, none);
    law_full_text_is_read(zero, number, zero, none, none);
    let minor = seq!['0', '.'] + number;
    assert(full_text(number, zero, zero, none, none) =~= number + seq!['.', '0', '.', '0']);
    assert(full_text(zero, number, zero, none, none) =~= minor + seq!['.', '0']);
    assert(minor =~= zero + seq!['.'] + number);
    assert(!zero.contains('.'));
    text::lemma_split_first_of_parts(zero, '.', number);
    assert(minor[1] == '.');
    assert(!grammar::is_digit('.'));
}

/// What stands for a version, or is one that it is the canonical form of, is a
/// major version, `0.` and a minor version, or a version without build
/// metadata that is a prerelease or starts with `0.0`.
pub proof fn law_canonical_text_has_three_forms(s: Seq<char>)
    requires
        grammar::padded_version(s) is Some,
    ensures
        ({
            let v = grammar::padded_version(s).unwrap();
            &&& v.build.len() == 0
            &&& {
                ||| {
                    &&& grammar::is_number(s)
                    &&& v.major == grammar::number_value(s) && v.major > 0
                    &&& v.minor == 0 && v.patch == 0 && v.pre.len() == 0
                }
                ||| exists|minor: Seq<char>|
                    {
                        &&& #[trigger] grammar::is_number(minor)
                        &&& s == seq!['0', '.'] + minor
                        &&& v.minor == grammar::number_value(minor) && v.minor > 0
                        &&& v.major == 0 && v.patch == 0 && v.pre.len() == 0
                    }
                ||| {
                    &&& grammar::version_of(s) == Some(v)
                    &&& v.pre.len() > 0 || v.major == 0 && v.minor == 0
                }
            }
        }),
{
    let zero = seq!['0'];
    let v = grammar::padded_version(s).unwrap();
    grammar::lemma_zero();
    if grammar::is_nonzero_number(s) {
        let t = VersionText { major: s, minor: zero, patch: zero, pre: None, build: None };
        assert(t.text() =~= s + seq!['.', '0', '.', '0']);
        grammar::lemma_spelled(t, t.text());
        grammar::lemma_number_positive(s);
    } else if grammar::is_zero_and_minor(s) {
        let minor = text::split_first(s, '.').unwrap().1;
        let t = VersionText { major: zero, minor, patch: zero, pre: None, build: None };
        text::lemma_split_first(s, '.');
        assert(s =~= seq!['0', '.'] + minor);
        assert(t.text() =~= s + seq!['.', '0']);
        grammar::lemma_spelled(t, t.text());
        grammar::lemma_number_positive(minor);
        assert(grammar::is_number(minor));
    } else {
        let t = choose|t: VersionText| t.spells(s);
        grammar::lemma_spelled(t, s);
        grammar::lemma_pieces(t, s);
        text::lemma_split_first(s, '+');
        if t.build is Some {
            assert(s[t.without_build().len() as int] == '+');
            assert(s.len() > t.canonical().len());
        }
        if t.pre is None && t.major != zero {
            assert(s.len() > t.major.len());
        } else if t.pre is None && t.minor != zero {
            assert(s.len() > (t.major + seq!['.'] + t.minor).len());
        }
    }
}

/// The value of a decimal number is ten times that of the digits before the
/// last, and the last digit.
pub proof fn law_numbers_are_decimal(s: Seq<char>, digit: char)
    requires
        grammar::is_digit(digit),
    ensures
        grammar::number_value(Seq::empty()) == 0,
        grammar::number_value(s.push(digit)) == 10 * grammar::number_value(s) + (digit as int
            - '0' as int),
{
    assert(s.push(digit).drop_last() =~= s);
}

/// Versions are ordered by their numbers: the first that differs decides.
pub proof fn law_numbers_decide(v: VersionView, w: VersionView)
    ensures
        v.major < w.major ==> v.precedes(w) && !w.precedes(v),
        v.major == w.major && v.minor < w.minor ==> v.precedes(w) && !w.precedes(v),
        v.major == w.major && v.minor == w.minor && v.patch < w.patch ==> v.precedes(w)
            && !w.precedes(v),
{
}

/// Of versions with the same numbers, a prerelease comes before a release, and
/// the prereleases are ordered as lists of identifiers.
pub proof fn law_prereleases_come_first(v: VersionView, w: VersionView)
    requires
        v.major == w.major,
        v.minor == w.minor,
        v.patch == w.patch,
    ensures
        v.pre.len() > 0 && w.pre.len() == 0 ==> v.precedes(w) && !w.precedes(v),
        v.pre.len() > 0 && w.pre.len() > 0 && v.pre != w.pre ==> (v.precedes(w)
            <==> order::list_precedes(v.pre, w.pre)),
{
}

/// Of versions with the same numbers and the same prerelease, one without build
/// metadata comes before all others, and the others are ordered as lists of
/// identifiers.
pub proof fn law_build_metadata_decides_last(v: VersionView, w: VersionView)
    requires
        v.major == w.major,
        v.minor == w.minor,
        v.patch == w.patch,
        v.pre == w.pre,
    ensures
        v.build.len() == 0 && w.build.len() > 0 ==> v.precedes(w) && !w.precedes(v),
        v.precedes(w) <==> order::list_precedes(v.build, w.build),
{
    order::law_order_is_total(v, w, w);
    order::lemma_empty_list_is_first(w.build);
    if v.build.len() == 0 {
        assert(v.build =~= Seq::empty());
    }
}

/// Whether `s` is the end of a list of identifiers behind one of them: nothing,
/// or a dot and more.
pub open spec fn is_rest_of_list(s: Seq<char>) -> bool {
    s.len() == 0 || s[0] == '.'
}

/// The first identifier of a list.
proof fn lemma_first_identifier(first: Seq<char>, rest: Seq<char>)
    requires
        !first.contains('.'),
        is_rest_of_list(rest),
    ensures
        order::first_identifier(first + rest) == (
            first,
            if rest.len() > 0 {
                Some(rest.skip(1))
            } else {
                None
            },
        ),
{
    if rest.len() > 0 {
        assert(first + rest =~= first + seq!['.'] + rest.skip(1));
        text::lemma_split_first_of_parts(first, '.', rest.skip(1));
    } else {
        assert(first + rest =~= first);
        text::lemma_split_first(first, '.');
    }
}

/// The first identifier in which two lists differ decides their order.
pub proof fn law_first_difference_decides(
    front: Seq<char>,
    a: Seq<char>,
    b: Seq<char>,
    rest_a: Seq<char>,
    rest_b: Seq<char>,
)
    requires
        front.len() == 0 || front.last() == '.',
        a != b,
        !a.contains('.'),
        !b.contains('.'),
        is_rest_of_list(rest_a),
        is_rest_of_list(rest_b),
    ensures
        order::list_precedes(front + a + rest_a, front + b + rest_b) == order::identifier_precedes(
            a,
            b,
        ),
    decreases front.len(),
{
    if front.len() == 0 {
        assert(front + a + rest_a =~= a + rest_a);
        assert(front + b + rest_b =~= b + rest_b);
        lemma_first_identifier(a, rest_a);
        lemma_first_identifier(b, rest_b);
    } else {
        assert(front.contains('.'));
        text::lemma_split_first(front, '.');
        let (first, more) = text::split_first(front, '.').unwrap();
        if more.len() > 0 {
            assert(more.last() == front.last());
        }
        law_first_difference_decides(more, a, b, rest_a, rest_b);
        let tail_a = more + a + rest_a;
        let tail_b = more + b + rest_b;
        assert(front + a + rest_a =~= first + (seq!['.'] + tail_a));
        assert(front + b + rest_b =~= first + (seq!['.'] + tail_b));
        lemma_first_identifier(first, seq!['.'] + tail_a);
        lemma_first_identifier(first, seq!['.'] + tail_b);
        assert((seq!['.'] + tail_a).skip(1) =~= tail_a);
        assert((seq!['.'] + tail_b).skip(1) =~= tail_b);
    }
}

/// A list of identifiers comes before a longer one that starts with it.
pub proof fn law_longer_list_is_higher(s: Seq<char>, more: Seq<char>)
    ensures
        order::list_precedes(s, s + seq!['.'] + more),
    decreases s.len(),
{
    text::lemma_split_first(s, '.');
    match text::split_first(s, '.') {
        Some((first, rest)) => {
            law_longer_list_is_higher(rest, more);
            let tail = rest + seq!['.'] + more;
            assert(s + seq!['.'] + more =~= first + seq!['.'] + tail);
            text::lemma_split_first_of_parts(first, '.', tail);
        },
        None => {
            text::lemma_split_first_of_parts(s, '.', more);
        },
    }
}

/// Identifiers of digits are ordered by their values and come before all
/// others, which are ordered as strings.
pub proof fn law_identifier_order(a: Seq<char>, b: Seq<char>)
    ensures
        order::has_only_digits(a) && order::has_only_digits(b) && grammar::number_value(a)
            < grammar::number_value(b) ==> order::identifier_precedes(a, b)
            && !order::identifier_precedes(b, a),
        order::has_only_digits(a) && order::has_only_digits(b) && grammar::number_value(a)
            == grammar::number_value(b) ==> (order::identifier_precedes(a, b) <==> a.len()
            < b.len()),
        order::has_only_digits(a) && !order::has_only_digits(b) ==> order::identifier_precedes(a, b)
            && !order::identifier_precedes(b, a),
        !order::has_only_digits(a) && !order::has_only_digits(b) ==> (order::identifier_precedes(
            a,
            b,
        ) <==> order::text_precedes(a, b)),
{
}

/// Strings are ordered by the first character in which they differ, and a
/// string comes before those that start with it.
pub proof fn law_text_order(
    front: Seq<char>,
    c: char,
    d: char,
    rest_c: Seq<char>,
    rest_d: Seq<char>,
)
    requires
        c < d,
    ensures
        order::text_precedes(front + seq![c] + rest_c, front + seq![d] + rest_d),
        !order::text_precedes(front + seq![d] + rest_d, front + seq![c] + rest_c),
        order::text_precedes(front, front + seq![c] + rest_c),
        !order::text_precedes(front + seq![c] + rest_c, front),
    decreases front.len(),
{
    let a = front + seq![c] + rest_c;
    let b = front + seq![d] + rest_d;
    if front.len() > 0 {
        let more = front.drop_first();
        law_text_order(more, c, d, rest_c, rest_d);
        assert(a.drop_first() =~= more + seq![c] + rest_c);
        assert(b.drop_first() =~= more + seq![d] + rest_d);
    } else {
        assert(a[0] == c);
        assert(b[0] == d);
    }
}

/// The numbers are the digits, and the numbers but `0` with a digit behind.
pub proof fn law_numbers_are_digits(s: Seq<char>, c: char)
    ensures
        grammar::is_digit(c) <==> '0' as int <= c as int <= '9' as int,
        !grammar::is_number(Seq::empty()),
        grammar::is_number(seq![c]) <==> grammar::is_digit(c),
        s.len() > 0 ==> (grammar::is_number(s.push(c)) <==> grammar::is_number(s) && s != seq!['0']
            && grammar::is_digit(c)),
{
    let t = s.push(c);
    if grammar::is_number(seq![c]) {
        assert(grammar::is_digit(seq![c][0]));
    }
    if s.len() > 0 {
        assert(t[0] == s[0]);
        assert(forall|i: int| 0 <= i < s.len() ==> #[trigger] t[i] == s[i]);
        assert(t[s.len() as int] == c);
        if grammar::is_number(t) {
            assert forall|i: int| 0 <= i < s.len() implies grammar::is_digit(#[trigger] s[i]) by {
                assert(grammar::is_digit(t[i]));
            }
            assert(grammar::is_digit(t[s.len() as int]));
            assert(seq!['0'][0] == '0');
        }
        if grammar::is_number(s) && s != seq!['0'] && grammar::is_digit(c) {
            if s[0] == '0' {
                assert(s =~= seq!['0']);
            }
        }
    }
}

/// An identifier is made of digits, letters and hyphens.
pub proof fn law_identifiers(s: Seq<char>)
    requires
        !s.contains('.'),
    ensures
        grammar::is_identifier_list(s) <==> s.len() > 0 && forall|i: int|
            0 <= i < s.len() ==> {
                let c = #[trigger] s[i];
                ||| '0' <= c && c <= '9'
                ||| 'a' <= c && c <= 'z'
                ||| 'A' <= c && c <= 'Z'
                ||| c == '-'
            },
        grammar::has_plain_numbers(s) <==> !(s.len() > 1 && s[0] == '0' && forall|i: int|
            0 <= i < s.len() ==> '0' <= (#[trigger] s[i]) && s[i] <= '9'),
{
    if grammar::has_plain_numbers(s) && s.len() > 1 {
        assert(forall|k: int| 0 <= k < s.len() ==> #[trigger] s[k] != '.');
        assert(grammar::is_segment(s, 0, s.len() as int));
    }
    assert forall|i: int, j: int| #[trigger]
        grammar::is_segment(s, i, j) implies i == 0 && j == s.len() by {
        if i > 0 {
            assert(s.contains(s[i - 1]));
        }
        if j < s.len() {
            assert(s.contains(s[j]));
        }
    }
    if grammar::is_identifier_list(s) {
        assert forall|i: int| 0 <= i < s.len() implies grammar::is_identifier_char(
            #[trigger] s[i],
        ) by {
            assert(s.contains(s[i]));
        }
    }
    if !grammar::has_plain_numbers(s) {
        let (i, j) = choose|i: int, j: int| #[trigger]
            grammar::is_segment(s, i, j) && j - i > 1 && (forall|k: int|
                i <= k < j ==> grammar::is_digit(#[trigger] s[k])) && s[i] == '0';
        assert(forall|k: int| 0 <= k < s.len() ==> grammar::is_digit(#[trigger] s[k]));
    }
}

/// Two lists of identifiers with a dot between them are a list of identifiers.
pub proof fn law_identifier_lists(a: Seq<char>, b: Seq<char>)
    ensures
        grammar::is_identifier_list(a + seq!['.'] + b) <==> grammar::is_identifier_list(a)
            && grammar::is_identifier_list(b),
        grammar::has_plain_numbers(a + seq!['.'] + b) <==> grammar::has_plain_numbers(a)
            && grammar::has_plain_numbers(b),
{
    lemma_identifier_lists(a, b);
    lemma_plain_numbers(a, b);
}

/// Two lists of identifiers with a dot between them are a list of identifiers.
proof fn lemma_identifier_lists(a: Seq<char>, b: Seq<char>)
    ensures
        grammar::is_identifier_list(a + seq!['.'] + b) <==> grammar::is_identifier_list(a)
            && grammar::is_identifier_list(b),
{
    let s = a + seq!['.'] + b;
    let m = a.len() as int;
    assert(s[m] == '.');
    if grammar::is_identifier_list(s) {
        assert(0 < m < s.len() - 1 && s[m - 1] != '.');
        assert forall|i: int| 0 <= i < a.len() implies {
            ||| grammar::is_identifier_char(#[trigger] a[i])
            ||| a[i] == '.' && 0 < i < a.len() - 1 && a[i - 1] != '.'
        } by {
            assert(s[i] == a[i]);
            if i > 0 {
                assert(s[i - 1] == a[i - 1]);
            }
        }
        assert forall|i: int| 0 <= i < b.len() implies {
            ||| grammar::is_identifier_char(#[trigger] b[i])
            ||| b[i] == '.' && 0 < i < b.len() - 1 && b[i - 1] != '.'
        } by {
            assert(s[i + m + 1] == b[i]);
            if i > 0 {
                assert(s[i + m] == b[i - 1]);
            }
        }
    }
    if grammar::is_identifier_list(a) && grammar::is_identifier_list(b) {
        assert(grammar::is_identifier_char(a[m - 1]) || a[m - 1] == '.');
        assert forall|i: int| 0 <= i < s.len() implies {
            ||| grammar::is_identifier_char(#[trigger] s[i])
            ||| s[i] == '.' && 0 < i < s.len() - 1 && s[i - 1] != '.'
        } by {
            if i < m {
                assert(s[i] == a[i]);
                if i > 0 {
                    assert(s[i - 1] == a[i - 1]);
                }
            } else if i > m {
                assert(s[i] == b[i - m - 1]);
                if i > m + 1 {
                    assert(s[i - 1] == b[i - m - 2]);
                }
            } else {
                assert(s[i - 1] == a[m - 1]);
            }
        }
    }
}

/// The identifiers of two lists with a dot between them are those of the two.
proof fn lemma_plain_numbers(a: Seq<char>, b: Seq<char>)
    ensures
        grammar::has_plain_numbers(a + seq!['.'] + b) <==> grammar::has_plain_numbers(a)
            && grammar::has_plain_numbers(b),
{
    let s = a + seq!['.'] + b;
    let m = a.len() as int;
    assert(s[m] == '.');
    assert(forall|i: int| 0 <= i < m ==> #[trigger] s[i] == a[i]);
    assert(forall|i: int| m < i < s.len() ==> #[trigger] s[i] == b[i - m - 1]);
    assert(forall|i: int| 0 <= i < b.len() ==> #[trigger] b[i] == s[i + m + 1]);
    if grammar::has_plain_numbers(s) {
        assert forall|i: int, j: int| #[trigger]
            grammar::is_segment(a, i, j) && j - i > 1 && (forall|k: int|
                i <= k < j ==> grammar::is_digit(#[trigger] a[k])) implies a[i] != '0' by {
            assert(forall|k: int| i <= k < j ==> #[trigger] s[k] == a[k]);
            assert(grammar::is_segment(s, i, j));
        }
        assert forall|i: int, j: int| #[trigger]
            grammar::is_segment(b, i, j) && j - i > 1 && (forall|k: int|
                i <= k < j ==> grammar::is_digit(#[trigger] b[k])) implies b[i] != '0' by {
            assert(forall|k: int|
                i + m + 1 <= k < j + m + 1 ==> #[trigger] s[k] == b[k - m - 1]);
            if i > 0 {
                assert(s[i + m] == b[i - 1]);
            }
            assert(grammar::is_segment(s, i + m + 1, j + m + 1));
        }
    }
    if grammar::has_plain_numbers(a) && grammar::has_plain_numbers(b) {
        assert forall|i: int, j: int| #[trigger]
            grammar::is_segment(s, i, j) && j - i > 1 && (forall|k: int|
                i <= k < j ==> grammar::is_digit(#[trigger] s[k])) implies s[i] != '0' by {
            if j <= m {
                assert(forall|k: int| i <= k < j ==> #[trigger] a[k] == s[k]);
                if i > 0 {
                    assert(a[i - 1] == s[i - 1]);
                }
                assert(grammar::is_segment(a, i, j));
            } else {
                assert(i > m) by {
                    if i <= m {
                        assert(s[m] != '.');
                    }
                }
                let (x, y) = (i - m - 1, j - m - 1);
                assert(forall|k: int| x <= k < y ==> #[trigger] b[k] == s[k + m + 1]);
                if x > 0 {
                    assert(b[x - 1] == s[i - 1]);
                }
                if y < b.len() {
                    assert(b[y] == s[j]);
                }
                assert(grammar::is_segment(b, x, y));
            }
        }
    }
}

} // verus!
