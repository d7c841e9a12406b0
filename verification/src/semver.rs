//! Semantic version identifiers and their ordering.
//!
//! A release is identified by a `major.minor.patch` triple.  Precedence is
//! lexicographic on the three components; branch names and the version marker
//! file use the canonical decimal rendering of the triple.

use vstd::prelude::*;
use vstd::string::*;

verus! {

/// A semantic version: a totally ordered `major.minor.patch` triple.
#[derive(Clone, Copy, Debug, PartialEq, Eq, Structural)]
pub struct SemVer {
    pub major: u64,
    pub minor: u64,
    pub patch: u64,
}

impl SemVer {
    /// Strict precedence: lexicographic on (major, minor, patch).
    pub open spec fn spec_lt(self, other: SemVer) -> bool {
        self.major < other.major
            || (self.major == other.major && self.minor < other.minor)
            || (self.major == other.major && self.minor == other.minor
                && self.patch < other.patch)
    }

    pub open spec fn spec_le(self, other: SemVer) -> bool {
        self.spec_lt(other) || self == other
    }

    pub fn new(major: u64, minor: u64, patch: u64) -> (v: SemVer)
        ensures
            v == (SemVer { major, minor, patch }),
    {
        SemVer { major, minor, patch }
    }

    /// Decides strict precedence.
    pub fn lt(&self, other: &SemVer) -> (r: bool)
        ensures
            r == self.spec_lt(*other),
    {
        if self.major != other.major {
            self.major < other.major
        } else if self.minor != other.minor {
            self.minor < other.minor
        } else {
            self.patch < other.patch
        }
    }
}

/// The precedence order is total: of two distinct versions one precedes the
/// other, and never both.
pub proof fn lemma_precedence_total(a: SemVer, b: SemVer)
    ensures
        a.spec_lt(b) || b.spec_lt(a) || a == b,
        !(a.spec_lt(b) && b.spec_lt(a)),
        !(a.spec_lt(b) && a == b),
{
}

/// Whether `c` is a decimal digit.
pub open spec fn is_digit_char(c: char) -> bool {
    48 <= c as u32 <= 57
}

/// The digit character for a value below ten.
pub open spec fn digit_char(d: nat) -> char {
    if d == 0 {
        '0'
    } else if d == 1 {
        '1'
    } else if d == 2 {
        '2'
    } else if d == 3 {
        '3'
    } else if d == 4 {
        '4'
    } else if d == 5 {
        '5'
    } else if d == 6 {
        '6'
    } else if d == 7 {
        '7'
    } else if d == 8 {
        '8'
    } else {
        '9'
    }
}

/// The value of a digit character.
pub open spec fn char_digit(c: char) -> nat {
    (c as u32 - 48) as nat
}

/// The canonical decimal rendering of `n`: most significant digit first,
/// no leading zero except for `n == 0` itself.
pub open spec fn dec_digits(n: nat) -> Seq<char>
    decreases n,
{
    if n < 10 {
        seq![digit_char(n)]
    } else {
        dec_digits(n / 10).push(digit_char(n % 10))
    }
}

/// The numeric value of a digit string, most significant digit first.
pub open spec fn digits_value(s: Seq<char>) -> nat
    decreases s.len(),
{
    if s.len() == 0 {
        0
    } else {
        digits_value(s.drop_last()) * 10 + char_digit(s.last())
    }
}

pub open spec fn all_digits(s: Seq<char>) -> bool {
    forall|i: int| 0 <= i < s.len() ==> is_digit_char(s[i])
}

/// A digit string in canonical form: nonempty, digits only, and no leading
/// zero unless it is the single digit zero.
pub open spec fn canonical_digits(s: Seq<char>) -> bool {
    s.len() > 0 && all_digits(s) && (s.len() > 1 ==> s[0] != '0')
}

proof fn lemma_digit_char_roundtrip(d: nat)
    requires
        d < 10,
    ensures
        is_digit_char(digit_char(d)),
        char_digit(digit_char(d)) == d,
{
}

proof fn lemma_char_digit_roundtrip(c: char)
    requires
        is_digit_char(c),
    ensures
        char_digit(c) < 10,
        digit_char(char_digit(c)) == c,
{
}

/// The canonical rendering really is canonical, and evaluates back to the
/// number it renders.
pub proof fn lemma_dec_digits_canonical(n: nat)
    ensures
        canonical_digits(dec_digits(n)),
        digits_value(dec_digits(n)) == n,
        n > 0 ==> dec_digits(n)[0] != '0',
    decreases n,
{
    if n < 10 {
        lemma_digit_char_roundtrip(n);
        assert(dec_digits(n).drop_last() =~= Seq::<char>::empty());
        assert(digits_value(Seq::<char>::empty()) == 0);
        assert(dec_digits(n).last() == digit_char(n));
    } else {
        lemma_dec_digits_canonical(n / 10);
        lemma_digit_char_roundtrip(n % 10);
        let d = dec_digits(n / 10);
        let whole = d.push(digit_char(n % 10));
        assert(whole.drop_last() =~= d);
        assert(digits_value(whole) == digits_value(d) * 10 + char_digit(digit_char(n % 10)));
        assert(n / 10 * 10 + n % 10 == n) by {
            vstd::arithmetic::div_mod::lemma_fundamental_div_mod(n as int, 10);
        }
        assert(forall|i: int|
            0 <= i < whole.len() ==> is_digit_char(#[trigger] whole[i])) by {
            assert(forall|i: int| 0 <= i < d.len() ==> is_digit_char(#[trigger] d[i]));
        }
    }
}

/// A canonical digit string whose first digit is nonzero has a positive value.
proof fn lemma_digits_value_positive(s: Seq<char>)
    requires
        s.len() >= 1,
        all_digits(s),
        s[0] != '0',
    ensures
        digits_value(s) >= 1,
        s.len() > 1 ==> digits_value(s) >= 10,
    decreases s.len(),
{
    if s.len() == 1 {
        lemma_char_digit_roundtrip(s[0]);
    } else {
        let front = s.drop_last();
        assert(front[0] == s[0]);
        lemma_digits_value_positive(front);
    }
}

/// Evaluation followed by rendering gives back a canonical digit string.
pub proof fn lemma_digits_value_inverse(s: Seq<char>)
    requires
        canonical_digits(s),
    ensures
        dec_digits(digits_value(s)) == s,
    decreases s.len(),
{
    let v = digits_value(s);
    if s.len() == 1 {
        lemma_char_digit_roundtrip(s[0]);
        assert(s.drop_last() =~= Seq::<char>::empty());
        assert(dec_digits(v) =~= s);
    } else {
        let front = s.drop_last();
        let d = char_digit(s.last());
        assert(front[0] == s[0]);
        lemma_char_digit_roundtrip(s.last());
        lemma_digits_value_positive(front);
        let vf = digits_value(front);
        assert(v == vf * 10 + d);
        assert(v / 10 == vf && v % 10 == d) by (nonlinear_arith)
            requires
                v == vf * 10 + d,
                0 <= d < 10,
                vf >= 1,
        {
        }
        lemma_digits_value_inverse(front);
        assert(dec_digits(v) =~= s);
    }
}

/// The one-character string for a digit value.
fn digit_str(d: u64) -> (r: &'static str)
    requires
        d < 10,
    ensures
        r@ == seq![digit_char(d as nat)],
{
    proof {
        reveal_strlit("0");
        reveal_strlit("1");
        reveal_strlit("2");
        reveal_strlit("3");
        reveal_strlit("4");
        reveal_strlit("5");
        reveal_strlit("6");
        reveal_strlit("7");
        reveal_strlit("8");
        reveal_strlit("9");
    }
    let r = if d == 0 {
        "0"
    } else if d == 1 {
        "1"
    } else if d == 2 {
        "2"
    } else if d == 3 {
        "3"
    } else if d == 4 {
        "4"
    } else if d == 5 {
        "5"
    } else if d == 6 {
        "6"
    } else if d == 7 {
        "7"
    } else if d == 8 {
        "8"
    } else {
        "9"
    };
    proof {
        assert(r@ =~= seq![digit_char(d as nat)]);
    }
    r
}

/// Renders `n` in decimal, most significant digit first, without leading
/// zeros.
pub fn render_u64(n: u64) -> (r: String)
    ensures
        r@ == dec_digits(n as nat),
    decreases n,
{
    if n < 10 {
        let mut s = String::new();
        s.append(digit_str(n));
        proof {
            assert(s@ =~= dec_digits(n as nat));
        }
        s
    } else {
        let mut s = render_u64(n / 10);
        s.append(digit_str(n % 10));
        proof {
            assert(s@ =~= dec_digits((n / 10) as nat).push(digit_char((n % 10) as nat)));
        }
        s
    }
}

/// Parses a decimal digit string.  Succeeds exactly on the canonical decimal
/// rendering of a 64-bit value: digits only, no leading zero, in range.
pub fn parse_u64(s: &str) -> (r: Option<u64>)
    ensures
        match r {
            Some(n) => s@ == dec_digits(n as nat),
            None => forall|n: u64| s@ != dec_digits(n as nat),
        },
{
    let len = s.unicode_len();
    if len == 0 {
        proof {
            assert forall|n: u64| s@ != dec_digits(n as nat) by {
                lemma_dec_digits_canonical(n as nat);
            }
        }
        return None;
    }
    if len > 1 && s.get_char(0) == '0' {
        proof {
            assert forall|n: u64| s@ != dec_digits(n as nat) by {
                lemma_dec_digits_canonical(n as nat);
            }
        }
        return None;
    }
    let mut acc: u64 = 0;
    let mut i: usize = 0;
    while i < len
        invariant
            0 <= i <= len,
            len == s@.len(),
            len >= 1,
            len > 1 ==> s@[0] != '0',
            forall|k: int| 0 <= k < i ==> is_digit_char(#[trigger] s@[k]),
            acc == digits_value(s@.take(i as int)),
        decreases len - i,
    {
        let c = s.get_char(i);
        let code = c as u32;
        if code < 48 || code > 57 {
            proof {
                assert(!is_digit_char(s@[i as int]));
                assert forall|n: u64| s@ != dec_digits(n as nat) by {
                    lemma_dec_digits_canonical(n as nat);
                }
            }
            return None;
        }
        let d = (code - 48) as u64;
        proof {
            assert(char_digit(s@[i as int]) == d);
        }
        let wide: u128 = acc as u128 * 10 + d as u128;
        proof {
            assert(s@.take(i + 1).drop_last() =~= s@.take(i as int));
            assert(s@.take(i + 1).last() == s@[i as int]);
            assert(digits_value(s@.take(i + 1)) == acc * 10 + d);
        }
        if wide > u64::MAX as u128 {
            proof {
                assert forall|n: u64| s@ != dec_digits(n as nat) by {
                    if s@ == dec_digits(n as nat) {
                        lemma_dec_digits_canonical(n as nat);
                        lemma_digits_value_prefix(s@, i + 1);
                        assert(digits_value(s@) == n as nat);
                        assert(digits_value(s@.take(i + 1)) > u64::MAX);
                    }
                }
            }
            return None;
        }
        acc = wide as u64;
        i = i + 1;
    }
    proof {
        assert(s@.take(len as int) =~= s@);
        assert(canonical_digits(s@));
        lemma_digits_value_inverse(s@);
    }
    Some(acc)
}

/// The value of a digit string dominates the value of any of its prefixes.
pub proof fn lemma_digits_value_prefix(s: Seq<char>, i: int)
    requires
        0 <= i <= s.len(),
    ensures
        digits_value(s.take(i)) <= digits_value(s),
    decreases s.len(),
{
    if i < s.len() {
        let front = s.drop_last();
        assert(s.take(i) =~= front.take(i));
        lemma_digits_value_prefix(front, i);
    } else {
        assert(s.take(i) =~= s);
    }
}

/// The canonical character rendering of a version:
/// `major "." minor "." patch`, each part in canonical decimal.
pub open spec fn semver_chars(v: SemVer) -> Seq<char> {
    dec_digits(v.major as nat) + seq!['.'] + dec_digits(v.minor as nat) + seq!['.']
        + dec_digits(v.patch as nat)
}

/// Where the separators and digit groups sit inside `semver_chars(v)`.
pub proof fn lemma_semver_chars_structure(v: SemVer)
    ensures
        ({
            let l1 = dec_digits(v.major as nat).len() as int;
            let l2 = dec_digits(v.minor as nat).len() as int;
            let l3 = dec_digits(v.patch as nat).len() as int;
            let s = semver_chars(v);
            &&& l1 >= 1 && l2 >= 1 && l3 >= 1
            &&& s.len() == l1 + l2 + l3 + 2
            &&& s[l1] == '.'
            &&& s[l1 + 1 + l2] == '.'
            &&& (forall|k: int| 0 <= k < l1 ==> is_digit_char(#[trigger] s[k]))
            &&& (forall|k: int| l1 + 1 <= k < l1 + 1 + l2 ==> is_digit_char(#[trigger] s[k]))
            &&& (forall|k: int| l1 + l2 + 2 <= k < s.len() ==> is_digit_char(#[trigger] s[k]))
            &&& s.subrange(0, l1) == dec_digits(v.major as nat)
            &&& s.subrange(l1 + 1, l1 + 1 + l2) == dec_digits(v.minor as nat)
            &&& s.subrange(l1 + l2 + 2, s.len() as int) == dec_digits(v.patch as nat)
            &&& (forall|k: int| 0 <= k < l1 ==> s[k] != '.')
            &&& (forall|k: int| l1 + 1 <= k < l1 + 1 + l2 ==> s[k] != '.')
        }),
{
    lemma_dec_digits_canonical(v.major as nat);
    lemma_dec_digits_canonical(v.minor as nat);
    lemma_dec_digits_canonical(v.patch as nat);
    let d1 = dec_digits(v.major as nat);
    let d2 = dec_digits(v.minor as nat);
    let d3 = dec_digits(v.patch as nat);
    let l1 = d1.len() as int;
    let l2 = d2.len() as int;
    let s = semver_chars(v);
    assert(s.subrange(0, l1) =~= d1);
    assert(s.subrange(l1 + 1, l1 + 1 + l2) =~= d2);
    assert(s.subrange(l1 + l2 + 2, s.len() as int) =~= d3);
}

/// Finds the first `'.'` at or after `from`.
fn find_dot(s: &str, from: usize) -> (r: Option<usize>)
    requires
        from <= s@.len(),
    ensures
        match r {
            Some(j) => from <= j < s@.len() && s@[j as int] == '.' && (forall|k: int|
                from <= k < j ==> s@[k] != '.'),
            None => forall|k: int| from <= k < s@.len() ==> s@[k] != '.',
        },
{
    let len = s.unicode_len();
    let mut i: usize = from;
    while i < len
        invariant
            from <= i <= len,
            len == s@.len(),
            forall|k: int| from <= k < i ==> s@[k] != '.',
        decreases len - i,
    {
        if s.get_char(i) == '.' {
            return Some(i);
        }
        i = i + 1;
    }
    None
}

/// Parses the canonical `major.minor.patch` rendering of a version.
/// Succeeds exactly on `semver_chars(v)` for some version `v`; any other
/// string — extra separators, signs, leading zeros, values out of range —
/// is rejected.
pub fn parse_semver(s: &str) -> (r: Option<SemVer>)
    ensures
        match r {
            Some(v) => s@ == semver_chars(v),
            None => forall|v: SemVer| s@ != semver_chars(v),
        },
{
    let len = s.unicode_len();
    let i1_opt = find_dot(s, 0);
    let i1 = match i1_opt {
        Some(j) => j,
        None => {
            proof {
                assert forall|v: SemVer| s@ != semver_chars(v) by {
                    if s@ == semver_chars(v) {
                        lemma_semver_chars_structure(v);
                    }
                }
            }
            return None;
        },
    };
    let i2_opt = find_dot(s, i1 + 1);
    let i2 = match i2_opt {
        Some(j) => j,
        None => {
            proof {
                assert forall|v: SemVer| s@ != semver_chars(v) by {
                    if s@ == semver_chars(v) {
                        lemma_semver_chars_structure(v);
                        let l1 = dec_digits(v.major as nat).len() as int;
                        let l2 = dec_digits(v.minor as nat).len() as int;
                        assert(i1 == l1);
                        assert(s@[l1 + 1 + l2] == '.');
                    }
                }
            }
            return None;
        },
    };
    let seg1 = s.substring_char(0, i1);
    let a = match parse_u64(seg1) {
        Some(n) => n,
        None => {
            proof {
                assert forall|v: SemVer| s@ != semver_chars(v) by {
                    if s@ == semver_chars(v) {
                        lemma_semver_chars_structure(v);
                        let l1 = dec_digits(v.major as nat).len() as int;
                        assert(i1 == l1);
                        assert(seg1@ == dec_digits(v.major as nat));
                    }
                }
            }
            return None;
        },
    };
    let seg2 = s.substring_char(i1 + 1, i2);
    let b = match parse_u64(seg2) {
        Some(n) => n,
        None => {
            proof {
                assert forall|v: SemVer| s@ != semver_chars(v) by {
                    if s@ == semver_chars(v) {
                        lemma_semver_chars_structure(v);
                        let l1 = dec_digits(v.major as nat).len() as int;
                        let l2 = dec_digits(v.minor as nat).len() as int;
                        assert(i1 == l1);
                        assert(i2 == l1 + 1 + l2);
                        assert(seg2@ == dec_digits(v.minor as nat));
                    }
                }
            }
            return None;
        },
    };
    let seg3 = s.substring_char(i2 + 1, len);
    let c = match parse_u64(seg3) {
        Some(n) => n,
        None => {
            proof {
                assert forall|v: SemVer| s@ != semver_chars(v) by {
                    if s@ == semver_chars(v) {
                        lemma_semver_chars_structure(v);
                        let l1 = dec_digits(v.major as nat).len() as int;
                        let l2 = dec_digits(v.minor as nat).len() as int;
                        assert(i1 == l1);
                        assert(i2 == l1 + 1 + l2);
                        assert(seg3@ == dec_digits(v.patch as nat));
                    }
                }
            }
            return None;
        },
    };
    let v = SemVer { major: a, minor: b, patch: c };
    proof {
        assert(s@ =~= seg1@ + seq!['.'] + seg2@ + seq!['.'] + seg3@);
    }
    Some(v)
}

/// The canonical rendering is injective: equal renderings mean equal
/// versions.
pub proof fn lemma_semver_chars_injective(v1: SemVer, v2: SemVer)
    requires
        semver_chars(v1) == semver_chars(v2),
    ensures
        v1 == v2,
{
    lemma_semver_chars_structure(v1);
    lemma_semver_chars_structure(v2);
    lemma_dec_digits_canonical(v1.major as nat);
    lemma_dec_digits_canonical(v1.minor as nat);
    lemma_dec_digits_canonical(v1.patch as nat);
    lemma_dec_digits_canonical(v2.major as nat);
    lemma_dec_digits_canonical(v2.minor as nat);
    lemma_dec_digits_canonical(v2.patch as nat);
    let s = semver_chars(v1);
    let a1 = dec_digits(v1.major as nat).len() as int;
    let b1 = dec_digits(v1.minor as nat).len() as int;
    let a2 = dec_digits(v2.major as nat).len() as int;
    let b2 = dec_digits(v2.minor as nat).len() as int;
    assert(a1 == a2) by {
        if a1 < a2 {
            assert(is_digit_char(s[a1]));
        }
        if a2 < a1 {
            assert(is_digit_char(s[a2]));
        }
    }
    assert(v1.major == v2.major) by {
        assert(dec_digits(v1.major as nat) == dec_digits(v2.major as nat));
    }
    assert(b1 == b2) by {
        if b1 < b2 {
            assert(is_digit_char(s[a1 + 1 + b1]));
        }
        if b2 < b1 {
            assert(is_digit_char(s[a2 + 1 + b2]));
        }
    }
    assert(v1.minor == v2.minor) by {
        assert(dec_digits(v1.minor as nat) == dec_digits(v2.minor as nat));
    }
    assert(v1.patch == v2.patch) by {
        assert(dec_digits(v1.patch as nat) == dec_digits(v2.patch as nat));
    }
}

/// The characters of the branch name `version/<semver>` for a version.
pub open spec fn version_branch_chars(v: SemVer) -> Seq<char> {
    seq!['v', 'e', 'r', 's', 'i', 'o', 'n', '/'] + semver_chars(v)
}

/// The characters of the single-line marker file recording a version:
/// the canonical rendering, newline-terminated.
pub open spec fn version_line_chars(v: SemVer) -> Seq<char> {
    semver_chars(v).push('\n')
}

/// Parses a branch name of the form `version/<semver>`.  Succeeds exactly on
/// `version_branch_chars(v)` for some version `v`; any other branch name is
/// rejected, so a caller can skip it silently.
pub fn parse_version_branch(name: &str) -> (r: Option<SemVer>)
    ensures
        match r {
            Some(v) => name@ == version_branch_chars(v),
            None => forall|v: SemVer| name@ != version_branch_chars(v),
        },
{
    let len = name.unicode_len();
    if len < 8 {
        proof {
            assert forall|v: SemVer| name@ != version_branch_chars(v) by {
                if name@ == version_branch_chars(v) {
                    lemma_semver_chars_structure(v);
                }
            }
        }
        return None;
    }
    let prefix_ok = name.get_char(0) == 'v' && name.get_char(1) == 'e' && name.get_char(2)
        == 'r' && name.get_char(3) == 's' && name.get_char(4) == 'i' && name.get_char(5) == 'o'
        && name.get_char(6) == 'n' && name.get_char(7) == '/';
    if !prefix_ok {
        return None;
    }
    let rest = name.substring_char(8, len);
    match parse_semver(rest) {
        Some(v) => {
            proof {
                assert(name@ =~= version_branch_chars(v));
            }
            Some(v)
        },
        None => {
            proof {
                assert forall|v: SemVer| name@ != version_branch_chars(v) by {
                    if name@ == version_branch_chars(v) {
                        assert(rest@ =~= semver_chars(v));
                    }
                }
            }
            None
        },
    }
}

/// Branch names are injective in the version they name.
pub proof fn lemma_version_branch_injective(v1: SemVer, v2: SemVer)
    requires
        version_branch_chars(v1) == version_branch_chars(v2),
    ensures
        v1 == v2,
{
    assert(semver_chars(v1) =~= version_branch_chars(v1).subrange(
        8,
        version_branch_chars(v1).len() as int,
    ));
    assert(semver_chars(v2) =~= version_branch_chars(v2).subrange(
        8,
        version_branch_chars(v2).len() as int,
    ));
    lemma_semver_chars_injective(v1, v2);
}

/// Renders the branch name `version/<semver>` for a version.
pub fn version_branch_name(v: &SemVer) -> (r: String)
    ensures
        r@ == version_branch_chars(*v),
{
    proof {
        reveal_strlit("version/");
    }
    let mut s = String::from_str("version/");
    let sem = render_semver(v);
    s.append(sem.as_str());
    proof {
        assert(s@ =~= version_branch_chars(*v));
    }
    s
}

/// Renders the newline-terminated marker line for a version.
pub fn version_line(v: &SemVer) -> (r: String)
    ensures
        r@ == version_line_chars(*v),
{
    proof {
        reveal_strlit("\n");
    }
    let mut s = render_semver(v);
    s.append("\n");
    proof {
        assert(s@ =~= version_line_chars(*v));
    }
    s
}

/// Renders a version as `major.minor.patch`.
pub fn render_semver(v: &SemVer) -> (r: String)
    ensures
        r@ == semver_chars(*v),
{
    proof {
        reveal_strlit(".");
    }
    let mut s = render_u64(v.major);
    s.append(".");
    let minor = render_u64(v.minor);
    s.append(minor.as_str());
    s.append(".");
    let patch = render_u64(v.patch);
    s.append(patch.as_str());
    proof {
        assert(s@ =~= semver_chars(*v));
    }
    s
}

} // verus!
