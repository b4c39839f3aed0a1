//! How semantic versions are spelled, and how the canonical version of a
//! version is.
use crate::text;
use vstd::prelude::*;

verus! {

/// Whether `c` is an ASCII digit.
pub open spec fn is_digit(c: char) -> bool {
    '0' <= c && c <= '9'
}

/// Whether `s` is a decimal number without leading zeros.
pub open spec fn is_number(s: Seq<char>) -> bool {
    &&& s.len() > 0
    &&& forall|i: int| 0 <= i < s.len() ==> is_digit(#[trigger] s[i])
    &&& s.len() == 1 || s[0] != '0'
}

/// The value of a string of digits.
pub open spec fn number_value(s: Seq<char>) -> nat
    decreases s.len(),
{
    if s.len() == 0 {
        0
    } else {
        10 * number_value(s.drop_last()) + (s.last() as nat - '0' as nat) as nat
    }
}

/// Whether `c` may stand in an identifier: a digit, a letter or a hyphen.
pub open spec fn is_identifier_char(c: char) -> bool {
    is_digit(c) || ('a' <= c && c <= 'z') || ('A' <= c && c <= 'Z') || c == '-'
}

/// Whether `s` is a list of identifiers, none empty, with dots between them.
pub open spec fn is_identifier_list(s: Seq<char>) -> bool {
    &&& s.len() > 0
    &&& forall|i: int|
        0 <= i < s.len() ==> {
            ||| is_identifier_char(#[trigger] s[i])
            ||| s[i] == '.' && 0 < i < s.len() - 1 && s[i - 1] != '.'
        }
}

/// Whether the characters of `s` from `i` up to `j` are one of the
/// dot-separated identifiers of `s`.
pub open spec fn is_segment(s: Seq<char>, i: int, j: int) -> bool {
    &&& 0 <= i < j <= s.len()
    &&& i == 0 || s[i - 1] == '.'
    &&& j == s.len() || s[j] == '.'
    &&& forall|k: int| i <= k < j ==> #[trigger] s[k] != '.'
}

/// Whether no numeric identifier of `s` has a leading zero.
pub open spec fn has_plain_numbers(s: Seq<char>) -> bool {
    forall|i: int, j: int| #[trigger]
        is_segment(s, i, j) && j - i > 1 && (forall|k: int|
            i <= k < j ==> is_digit(#[trigger] s[k])) ==> s[i] != '0'
}

/// The pieces of a spelled-out version `major.minor.patch(-pre)(+build)`.
pub struct VersionText {
    pub major: Seq<char>,
    pub minor: Seq<char>,
    pub patch: Seq<char>,
    pub pre: Option<Seq<char>>,
    pub build: Option<Seq<char>>,
}

impl VersionText {
    /// `major.minor.patch`.
    pub open spec fn numbers(self) -> Seq<char> {
        self.major + seq!['.'] + (self.minor + seq!['.'] + self.patch)
    }

    /// `major.minor.patch(-pre)`.
    pub open spec fn without_build(self) -> Seq<char> {
        match self.pre {
            Some(pre) => self.numbers() + seq!['-'] + pre,
            None => self.numbers(),
        }
    }

    /// `major.minor.patch(-pre)(+build)`.
    pub open spec fn text(self) -> Seq<char> {
        match self.build {
            Some(build) => self.without_build() + seq!['+'] + build,
            None => self.without_build(),
        }
    }

    /// Whether each piece has the form that it should have.
    pub open spec fn well_formed(self) -> bool {
        &&& is_number(self.major)
        &&& is_number(self.minor)
        &&& is_number(self.patch)
        &&& self.pre matches Some(pre) ==> is_identifier_list(pre)
        &&& self.build matches Some(build) ==> is_identifier_list(build)
    }

    /// Whether `s` is these pieces put together.
    pub open spec fn spells(self, s: Seq<char>) -> bool {
        self.well_formed() && self.text() == s
    }

    /// Whether the numbers fit a `u64` and no numeric prerelease identifier
    /// has a leading zero.
    pub open spec fn in_range(self) -> bool {
        &&& number_value(self.major) <= u64::MAX
        &&& number_value(self.minor) <= u64::MAX
        &&& number_value(self.patch) <= u64::MAX
        &&& self.pre matches Some(pre) ==> has_plain_numbers(pre)
    }

    /// The canonical version: `major` if that is not 0, else `0.minor` if the
    /// minor version is not 0, else the version without its build metadata. It
    /// is the latter for a prerelease too.
    pub open spec fn canonical(self) -> Seq<char> {
        if self.pre is None && self.major != seq!['0'] {
            self.major
        } else if self.pre is None && self.minor != seq!['0'] {
            self.major + seq!['.'] + self.minor
        } else {
            self.without_build()
        }
    }

    /// The pieces of the lowest version with the same canonical version.
    pub open spec fn lowest(self) -> VersionText {
        let zero = seq!['0'];
        if self.pre is None && self.major != zero {
            VersionText { minor: zero, patch: zero, build: None, ..self }
        } else if self.pre is None && self.minor != zero {
            VersionText { patch: zero, build: None, ..self }
        } else {
            VersionText { build: None, ..self }
        }
    }

    /// The version that these pieces stand for.
    pub open spec fn version(self) -> VersionView {
        VersionView {
            major: number_value(self.major),
            minor: number_value(self.minor),
            patch: number_value(self.patch),
            pre: self.pre.unwrap_or(Seq::empty()),
            build: self.build.unwrap_or(Seq::empty()),
        }
    }
}

/// A version as its numbers and its identifier lists, which are empty where
/// the version has none.
#[verifier::ext_equal]
pub struct VersionView {
    pub major: nat,
    pub minor: nat,
    pub patch: nat,
    pub pre: Seq<char>,
    pub build: Seq<char>,
}

impl VersionView {
    /// Whether the identifier lists have the form that they should have.
    pub open spec fn valid(self) -> bool {
        &&& self.major <= u64::MAX && self.minor <= u64::MAX && self.patch <= u64::MAX
        &&& self.pre.len() > 0 ==> is_identifier_list(self.pre) && has_plain_numbers(self.pre)
        &&& self.build.len() > 0 ==> is_identifier_list(self.build)
    }

    /// Whether semver takes this version and `other` to be compatible: a
    /// prerelease with itself only, and otherwise the versions that agree up to
    /// the first number that is not 0.
    pub open spec fn is_compatible_with(self, other: VersionView) -> bool {
        &&& self.pre == other.pre
        &&& self.major == other.major
        &&& self.pre.len() == 0 && self.major != 0 || {
            &&& self.minor == other.minor
            &&& self.pre.len() == 0 && self.minor != 0 || self.patch == other.patch
        }
    }
}

/// The version that `s` spells in full, if it does.
pub open spec fn version_of(s: Seq<char>) -> Option<VersionView> {
    if exists|t: VersionText| t.spells(s) && t.in_range() {
        let t = choose|t: VersionText| t.spells(s) && t.in_range();
        Some(t.version())
    } else {
        None
    }
}

/// The canonical version of what `s` spells, if that is a version in full,
/// whether or not its numbers are in range.
pub open spec fn canonical_of(s: Seq<char>) -> Option<Seq<char>> {
    if exists|t: VersionText| t.spells(s) {
        let t = choose|t: VersionText| t.spells(s);
        Some(t.canonical())
    } else {
        None
    }
}

/// Whether `s` is a decimal number without leading zeros, other than 0.
pub open spec fn is_nonzero_number(s: Seq<char>) -> bool {
    is_number(s) && s != seq!['0']
}

/// Whether `s` is `0.` and a minor version that is not 0.
pub open spec fn is_zero_and_minor(s: Seq<char>) -> bool {
    text::split_first(s, '.') matches Some((major, minor)) && major == seq!['0']
        && is_nonzero_number(minor)
}

/// Whether `s` is a canonical version: a major version that is not 0, `0.` and
/// a minor version that is not 0, or a full version that is its own canonical
/// version.
pub open spec fn is_canonical(s: Seq<char>) -> bool {
    is_nonzero_number(s) || is_zero_and_minor(s) || canonical_of(s) == Some(s)
}

/// The version that the canonical version `s` stands for, which is itself with
/// the missing numbers taken to be 0, if its numbers are in range.
pub open spec fn padded_version(s: Seq<char>) -> Option<VersionView> {
    if is_nonzero_number(s) {
        version_of(s + seq!['.', '0', '.', '0'])
    } else if is_zero_and_minor(s) {
        version_of(s + seq!['.', '0'])
    } else if canonical_of(s) == Some(s) {
        version_of(s)
    } else {
        None
    }
}

/// The version that a string spells is valid.
pub proof fn lemma_version_of_valid(s: Seq<char>)
    ensures
        version_of(s) matches Some(v) ==> v.valid(),
{
}

/// How the text of a version splits into its pieces.
pub proof fn lemma_pieces(t: VersionText, s: Seq<char>)
    requires
        t.spells(s),
    ensures
        text::split_first(s, '+') == match t.build {
            Some(build) => Some((t.without_build(), build)),
            None => None,
        },
        text::split_first(t.without_build(), '-') == match t.pre {
            Some(pre) => Some((t.numbers(), pre)),
            None => None,
        },
        text::split_first(t.numbers(), '.') == Some((t.major, t.minor + seq!['.'] + t.patch)),
        text::split_first(t.minor + seq!['.'] + t.patch, '.') == Some((t.minor, t.patch)),
        !t.patch.contains('.'),
        !s.contains('@'),
        !t.without_build().contains('@'),
{
    let tail = t.minor + seq!['.'] + t.patch;
    let head = t.without_build();
    text::lemma_split_first_of_parts(t.major, '.', tail);
    text::lemma_split_first_of_parts(t.minor, '.', t.patch);
    let numbers = t.numbers();
    assert(forall|i: int|
        0 <= i < numbers.len() ==> is_digit(#[trigger] numbers[i]) || numbers[i] == '.');
    match t.pre {
        Some(pre) => {
            text::lemma_split_first_of_parts(t.numbers(), '-', pre);
        },
        None => {
            text::lemma_split_first(head, '-');
            assert(!head.contains('-'));
        },
    }
    assert(forall|i: int|
        0 <= i < head.len() ==> is_identifier_char(#[trigger] head[i]) || head[i] == '.');
    match t.build {
        Some(build) => {
            text::lemma_split_first_of_parts(head, '+', build);
        },
        None => {
            text::lemma_split_first(s, '+');
            assert(!head.contains('+'));
        },
    }
    assert(forall|i: int|
        0 <= i < s.len() ==> is_identifier_char(#[trigger] s[i]) || s[i] == '.' || s[i] == '+');
}

/// A string spells a version in one way at most.
pub proof fn lemma_spelling_unique(t: VersionText, u: VersionText, s: Seq<char>)
    requires
        t.spells(s),
        u.spells(s),
    ensures
        t == u,
{
    lemma_pieces(t, s);
    lemma_pieces(u, s);
}

/// What the spelling of `s` by `t` says of `s`.
pub proof fn lemma_spelled(t: VersionText, s: Seq<char>)
    requires
        t.spells(s),
    ensures
        canonical_of(s) == Some(t.canonical()),
        version_of(s) == if t.in_range() {
            Some(t.version())
        } else {
            None
        },
{
    assert forall|u: VersionText| u.spells(s) implies u == t by {
        lemma_spelling_unique(t, u, s);
    }
}

/// The number 0 is spelled `0`.
pub proof fn lemma_zero()
    ensures
        is_number(seq!['0']),
        number_value(seq!['0']) == 0,
{
    reveal_with_fuel(number_value, 2);
}

/// A full version has two dots after its numbers.
proof fn lemma_two_dots(t: VersionText, s: Seq<char>)
    requires
        t.spells(s),
    ensures
        ({
            let i = t.major.len() as int;
            let j = i + 1 + t.minor.len();
            i < j < s.len() && s[i] == '.' && s[j] == '.'
        }),
{
    let i = t.major.len() as int;
    let j = i + 1 + t.minor.len();
    let numbers = t.numbers();
    assert(numbers[i] == '.' && numbers[j] == '.');
    assert(s.take(numbers.len() as int) =~= numbers);
    assert(s[i] == s.take(numbers.len() as int)[i]);
    assert(s[j] == s.take(numbers.len() as int)[j]);
}

/// A string with one dot at most is no full version.
proof fn lemma_too_few_dots(s: Seq<char>, dot: int)
    requires
        forall|i: int| 0 <= i < s.len() && i != dot ==> s[i] != '.',
    ensures
        canonical_of(s) is None,
        version_of(s) is None,
{
    assert forall|t: VersionText| !t.spells(s) by {
        if t.spells(s) {
            lemma_two_dots(t, s);
        }
    }
}

/// The dots of a canonical version tell which form it has.
pub proof fn lemma_canonical_form(s: Seq<char>)
    requires
        is_canonical(s),
    ensures
        match text::split_first(s, '.') {
            None => is_nonzero_number(s),
            Some((_, rest)) => !is_nonzero_number(s) && if text::split_first(rest, '.') is None {
                is_zero_and_minor(s)
            } else {
                !is_zero_and_minor(s) && canonical_of(s) == Some(s)
            },
        },
{
    text::lemma_split_first(s, '.');
    if canonical_of(s) == Some(s) {
        let t = choose|t: VersionText| t.spells(s);
        lemma_two_dots(t, s);
    }
    if let Some((first, rest)) = text::split_first(s, '.') {
        text::lemma_split_first(rest, '.');
        assert(s[first.len() as int] == '.');
        if canonical_of(s) == Some(s) {
            let t = choose|t: VersionText| t.spells(s);
            let j = t.major.len() + 1 + t.minor.len();
            assert(first.len() <= t.major.len()) by {
                if first.len() > t.major.len() {
                    assert(first[t.major.len() as int] == '.');
                }
            }
            assert(rest[j - first.len() - 1] == '.');
        }
    }
}

/// A canonical major version stands for the lowest version with it.
proof fn lemma_canonical_major(t: VersionText)
    requires
        t.well_formed(),
        t.in_range(),
        t.pre is None,
        t.major != seq!['0'],
    ensures
        canonical_of(t.major) is None,
        padded_version(t.major) == Some(t.lowest().version()),
{
    let low = t.lowest();
    lemma_zero();
    lemma_spelled(low, low.text());
    lemma_too_few_dots(t.major, 0);
    assert(low.text() =~= t.major + seq!['.', '0', '.', '0']);
}

/// A canonical minor version stands for the lowest version with it.
proof fn lemma_canonical_minor(t: VersionText)
    requires
        t.well_formed(),
        t.in_range(),
        t.pre is None,
        t.major == seq!['0'],
        t.minor != seq!['0'],
    ensures
        canonical_of(t.major + seq!['.'] + t.minor) is None,
        is_zero_and_minor(t.major + seq!['.'] + t.minor),
        padded_version(t.major + seq!['.'] + t.minor) == Some(t.lowest().version()),
{
    let low = t.lowest();
    let c = t.major + seq!['.'] + t.minor;
    lemma_zero();
    lemma_spelled(low, low.text());
    text::lemma_split_first_of_parts(t.major, '.', t.minor);
    lemma_too_few_dots(c, 1);
    assert(c[1] == '.');
    assert(low.text() =~= c + seq!['.', '0']);
}

/// A canonical version that is a full version stands for itself.
proof fn lemma_canonical_full(t: VersionText)
    requires
        t.well_formed(),
        t.in_range(),
        t.pre is Some || (t.major == seq!['0'] && t.minor == seq!['0']),
    ensures
        canonical_of(t.without_build()) == Some(t.without_build()),
        version_of(t.without_build()) == Some(t.lowest().version()),
        padded_version(t.without_build()) == Some(t.lowest().version()),
{
    let low = t.lowest();
    let c = t.without_build();
    assert(low.text() == c);
    lemma_spelled(low, c);
    lemma_two_dots(low, c);
    let rest = c.skip((t.major.len() + 1) as int);
    assert(c =~= t.major + seq!['.'] + rest);
    text::lemma_split_first_of_parts(t.major, '.', rest);
    assert(rest[t.minor.len() as int] == '.');
}

/// The canonical version of a version is a canonical version, which stands
/// for the lowest version with that canonical version. If it is a full
/// version, then it is its own canonical version.
pub proof fn lemma_canonical(t: VersionText, s: Seq<char>)
    requires
        t.spells(s),
        t.in_range(),
    ensures
        is_canonical(t.canonical()),
        padded_version(t.canonical()) == Some(t.lowest().version()),
        canonical_of(t.canonical()) is None || {
            &&& canonical_of(t.canonical()) == Some(t.canonical())
            &&& version_of(t.canonical()) == padded_version(t.canonical())
        },
        !t.canonical().contains('@'),
{
    lemma_pieces(t, s);
    if t.pre is None && t.major != seq!['0'] {
        lemma_canonical_major(t);
    } else if t.pre is None && t.minor != seq!['0'] {
        lemma_canonical_minor(t);
    } else {
        lemma_canonical_full(t);
    }
}

/// A number other than `0` is not 0.
pub proof fn lemma_number_positive(s: Seq<char>)
    requires
        is_nonzero_number(s),
    ensures
        number_value(s) > 0,
    decreases s.len(),
{
    assert(is_digit(s.last()));
    if s.len() == 1 {
        assert(s =~= seq![s[0]]);
    } else {
        let front = s.drop_last();
        assert(forall|i: int| 0 <= i < front.len() ==> #[trigger] front[i] == s[i]);
        assert(front[0] != seq!['0'][0]);
        lemma_number_positive(front);
    }
}

/// A number is spelled in one way.
proof fn lemma_number_injective(a: Seq<char>, b: Seq<char>)
    requires
        is_number(a),
        is_number(b),
        number_value(a) == number_value(b),
    ensures
        a == b,
    decreases a.len(),
{
    let (x, y) = (a.drop_last(), b.drop_last());
    assert(is_digit(a.last()) && is_digit(b.last()));
    assert(forall|i: int| 0 <= i < x.len() ==> #[trigger] x[i] == a[i]);
    assert(forall|i: int| 0 <= i < y.len() ==> #[trigger] y[i] == b[i]);
    if x.len() > 0 {
        assert(x[0] != seq!['0'][0]);
        lemma_number_positive(x);
    } else {
        assert(number_value(x) == 0);
    }
    if y.len() > 0 {
        assert(y[0] != seq!['0'][0]);
        lemma_number_positive(y);
    } else {
        assert(number_value(y) == 0);
    }
    if x.len() > 0 && y.len() > 0 {
        lemma_number_injective(x, y);
    } else {
        assert(x =~= y);
    }
    assert(a =~= x.push(a.last()));
    assert(b =~= y.push(b.last()));
}

/// Two versions are compatible if they have the same canonical version.
pub proof fn lemma_compatible(t: VersionText, u: VersionText)
    requires
        t.well_formed(),
        u.well_formed(),
        t.in_range(),
        u.in_range(),
    ensures
        t.canonical() == u.canonical() <==> t.version().is_compatible_with(u.version()),
{
    lemma_zero();
    if t.major != seq!['0'] {
        lemma_number_positive(t.major);
    }
    if t.minor != seq!['0'] {
        lemma_number_positive(t.minor);
    }
    if u.major != seq!['0'] {
        lemma_number_positive(u.major);
    }
    if u.minor != seq!['0'] {
        lemma_number_positive(u.minor);
    }
    if t.canonical() == u.canonical() {
        lemma_canonical(t, t.text());
        lemma_canonical(u, u.text());
    }
    if t.version().is_compatible_with(u.version()) {
        lemma_number_injective(t.major, u.major);
        if t.version().minor == u.version().minor {
            lemma_number_injective(t.minor, u.minor);
        }
        if t.version().patch == u.version().patch {
            lemma_number_injective(t.patch, u.patch);
        }
    }
}

/// The pieces of the version that a canonical version stands for.
pub proof fn lemma_padded_version(s: Seq<char>) -> (t: VersionText)
    requires
        padded_version(s) is Some,
    ensures
        t.well_formed(),
        t.in_range(),
        t.canonical() == s,
        padded_version(s) == Some(t.version()),
{
    let zero = seq!['0'];
    lemma_zero();
    if is_nonzero_number(s) {
        let t = VersionText { major: s, minor: zero, patch: zero, pre: None, build: None };
        assert(t.text() =~= s + seq!['.', '0', '.', '0']);
        lemma_spelled(t, t.text());
        t
    } else if is_zero_and_minor(s) {
        let minor = text::split_first(s, '.').unwrap().1;
        let t = VersionText { major: zero, minor, patch: zero, pre: None, build: None };
        text::lemma_split_first(s, '.');
        assert(t.text() =~= s + seq!['.', '0']);
        lemma_spelled(t, t.text());
        t
    } else {
        let t = choose|t: VersionText| t.spells(s);
        lemma_spelled(t, s);
        t
    }
}

} // verus!
