//! The Go release identifier: a `major.minor.patch` triple with the
//! canonical textual form `go<major>.<minor>.<patch>`.

use vstd::prelude::*;
use vstd::string::*;

verus! {

/// A semantic version tag, in Go format.
#[derive(Debug, Clone, Copy, PartialEq, Eq, Structural, Hash, PartialOrd, Ord)]
pub struct GoVersion {
    pub major: u32,
    pub minor: u32,
    pub patch: u32,
}

/// Strict ordering on versions: numeric, component by component.
pub open spec fn version_lt(a: GoVersion, b: GoVersion) -> bool {
    ||| a.major < b.major
    ||| (a.major == b.major && a.minor < b.minor)
    ||| (a.major == b.major && a.minor == b.minor && a.patch < b.patch)
}

impl GoVersion {
    /// Strict `<` on versions, comparing (major, minor, patch) numerically.
    pub fn lt(&self, other: &GoVersion) -> (r: bool)
        ensures
            r == version_lt(*self, *other),
    {
        if self.major != other.major {
            self.major < other.major
        } else if self.minor != other.minor {
            self.minor < other.minor
        } else {
            self.patch < other.patch
        }
    }
}

impl Default for GoVersion {
    /// The zero version, `go0.0.0`.
    fn default() -> (r: Self)
        ensures
            r == (GoVersion { major: 0, minor: 0, patch: 0 }),
    {
        GoVersion { major: 0, minor: 0, patch: 0 }
    }
}

/// The ordering is a strict total order: exactly one of `a < b`,
/// `a == b`, `b < a` holds, and it is transitive.
pub proof fn lemma_version_order_total(a: GoVersion, b: GoVersion, c: GoVersion)
    ensures
        version_lt(a, b) || version_lt(b, a) || a == b,
        version_lt(a, b) ==> !version_lt(b, a) && a != b,
        version_lt(a, b) && version_lt(b, c) ==> version_lt(a, c),
{
}

/// The decimal digit characters, by value.
pub open spec fn digit_char(d: int) -> char {
    if d == 0 {
        '0'
    } else if d == 1 {
        '1'
    } else if d == 2 {
        '2'
    } else if d == 3 {
        '3'
    } else if d == 4 {
        '4'
    } else if d == 5 {
        '5'
    } else if d == 6 {
        '6'
    } else if d == 7 {
        '7'
    } else if d == 8 {
        '8'
    } else {
        '9'
    }
}

/// The usual decimal rendering of a number, with no leading zeros
/// (a single `'0'` for zero).
pub open spec fn dec_chars(n: nat) -> Seq<char>
    decreases n,
{
    if n < 10 {
        seq![digit_char(n as int)]
    } else {
        dec_chars(n / 10) + seq![digit_char((n % 10) as int)]
    }
}

/// The canonical textual form of a version: `go<major>.<minor>.<patch>`.
pub open spec fn version_chars(v: GoVersion) -> Seq<char> {
    seq!['g', 'o'] + dec_chars(v.major as nat) + seq!['.'] + dec_chars(v.minor as nat) + seq!['.']
        + dec_chars(v.patch as nat)
}

fn digit_str(d: u32) -> (r: &'static str)
    requires
        d < 10,
    ensures
        r@ == seq![digit_char(d as int)],
{
    proof {
        reveal_strlit("0");
        reveal_strlit("1");
        reveal_strlit("2");
        reveal_strlit("3");
        reveal_strlit("4");
        reveal_strlit("5");
        reveal_strlit("6");
        reveal_strlit("7");
        reveal_strlit("8");
        reveal_strlit("9");
    }
    let r = match d {
        0 => "0",
        1 => "1",
        2 => "2",
        3 => "3",
        4 => "4",
        5 => "5",
        6 => "6",
        7 => "7",
        8 => "8",
        _ => "9",
    };
    proof {
        assert(r@ =~= seq![digit_char(d as int)]);
    }
    r
}

/// Renders a number in decimal.
fn u32_to_string(n: u32) -> (r: String)
    ensures
        r@ == dec_chars(n as nat),
    decreases n,
{
    if n < 10 {
        digit_str(n).to_owned()
    } else {
        let mut s = u32_to_string(n / 10);
        s.append(digit_str(n % 10));
        proof {
            assert(s@ =~= dec_chars(n as nat));
        }
        s
    }
}

impl GoVersion {
    /// The canonical string for this version, used for display, for the
    /// persisted record, and for install directory names.
    pub fn to_version_string(&self) -> (r: String)
        ensures
            r@ == version_chars(*self),
    {
        proof {
            reveal_strlit("go");
            reveal_strlit(".");
        }
        let mut s = String::from_str("go");
        s.append(u32_to_string(self.major).as_str());
        s.append(".");
        s.append(u32_to_string(self.minor).as_str());
        s.append(".");
        s.append(u32_to_string(self.patch).as_str());
        proof {
            assert(s@ =~= version_chars(*self));
        }
        s
    }
}

/// A decimal digit character.
pub open spec fn is_digit(c: char) -> bool {
    '0' <= c && c <= '9'
}

/// The numeric value of a digit character.
pub open spec fn digit_val(c: char) -> int {
    c as int - '0' as int
}

/// The number denoted by a sequence of digit characters.
pub open spec fn digits_val(s: Seq<char>) -> int
    decreases s.len(),
{
    if s.len() == 0 {
        0
    } else {
        digits_val(s.drop_last()) * 10 + digit_val(s.last())
    }
}

/// The end of the run of digit characters starting at `i`.
pub open spec fn digits_end(s: Seq<char>, i: int) -> int
    decreases s.len() - i,
{
    if i < s.len() && is_digit(s[i]) {
        digits_end(s, i + 1)
    } else {
        i
    }
}

/// Whether the version pattern (`go`, then digits, a dot, digits, and
/// optionally a dot and more digits) matches at position `i`.
pub open spec fn match_at(s: Seq<char>, i: int) -> bool {
    let a = i + 2;
    let b = digits_end(s, a);
    let c = b + 1;
    let d = digits_end(s, c);
    &&& 0 <= i
    &&& i + 2 <= s.len()
    &&& s[i] == 'g'
    &&& s[i + 1] == 'o'
    &&& b > a
    &&& b < s.len()
    &&& s[b] == '.'
    &&& d > c
}

/// The (major, minor, patch) numbers of the match at position `i`.
/// The patch group is optional and defaults to zero.
pub open spec fn nums_at(s: Seq<char>, i: int) -> (int, int, int)
    recommends
        match_at(s, i),
{
    let a = i + 2;
    let b = digits_end(s, a);
    let c = b + 1;
    let d = digits_end(s, c);
    let major = digits_val(s.subrange(a, b));
    let minor = digits_val(s.subrange(c, d));
    let patch = if d < s.len() && s[d] == '.' && digits_end(s, d + 1) > d + 1 {
        digits_val(s.subrange(d + 1, digits_end(s, d + 1)))
    } else {
        0
    };
    (major, minor, patch)
}

/// The first position at or after `i` where the version pattern matches.
pub open spec fn first_match_from(s: Seq<char>, i: int) -> Option<int>
    decreases s.len() - i,
{
    if i >= s.len() {
        None
    } else if match_at(s, i) {
        Some(i)
    } else {
        first_match_from(s, i + 1)
    }
}

/// What parsing a string yields: the numbers of the leftmost match of
/// the version pattern, or nothing when the pattern occurs nowhere.
pub open spec fn parse_spec(s: Seq<char>) -> Option<(int, int, int)> {
    match first_match_from(s, 0) {
        Some(i) => Some(nums_at(s, i)),
        None => None,
    }
}

/// Whether parsing `s` yields exactly the version `v`.
pub open spec fn parses_to(s: Seq<char>, v: GoVersion) -> bool {
    parse_spec(s) == Some((v.major as int, v.minor as int, v.patch as int))
}

/// Malformed version text: the version pattern occurs nowhere in the
/// input, or a matched component does not fit in 32 bits.
#[derive(Debug, Clone, Copy, PartialEq, Eq, Structural)]
pub struct ParseError;

impl ParseError {
    /// A human-readable description of the failure.
    pub fn message(&self) -> String {
        "unable to parse go version".to_owned()
    }
}

proof fn lemma_digits_val_nonneg(s: Seq<char>)
    requires
        forall|k: int| 0 <= k < s.len() ==> is_digit(#[trigger] s[k]),
    ensures
        digits_val(s) >= 0,
    decreases s.len(),
{
    if s.len() > 0 {
        lemma_digits_val_nonneg(s.drop_last());
    }
}

/// Appending one digit multiplies the value by ten and adds the digit.
proof fn lemma_digits_val_snoc(s: Seq<char>, i: int, j: int)
    requires
        0 <= i <= j < s.len(),
    ensures
        digits_val(s.subrange(i, j + 1)) == digits_val(s.subrange(i, j)) * 10 + digit_val(s[j]),
{
    let t = s.subrange(i, j + 1);
    assert(t.drop_last() =~= s.subrange(i, j));
    assert(t.last() == s[j]);
}

/// The value of a digit run only grows as the run extends.
proof fn lemma_digits_val_mono(s: Seq<char>, i: int, j: int, k: int)
    requires
        0 <= i <= j <= k <= s.len(),
        forall|m: int| i <= m < k ==> is_digit(#[trigger] s[m]),
    ensures
        digits_val(s.subrange(i, j)) <= digits_val(s.subrange(i, k)),
    decreases k - j,
{
    if j < k {
        lemma_digits_val_snoc(s, i, j);
        assert(forall|m: int| 0 <= m < s.subrange(i, j).len() ==> is_digit(
            #[trigger] s.subrange(i, j)[m],
        ));
        lemma_digits_val_nonneg(s.subrange(i, j));
        lemma_digits_val_mono(s, i, j + 1, k);
    }
}

/// A run of digits bounded by a non-digit (or the end) ends exactly there.
proof fn lemma_digits_end_range(s: Seq<char>, i: int, j: int)
    requires
        0 <= i <= j <= s.len(),
        forall|k: int| i <= k < j ==> is_digit(#[trigger] s[k]),
        j == s.len() || !is_digit(s[j]),
    ensures
        digits_end(s, i) == j,
    decreases j - i,
{
    if i < j {
        lemma_digits_end_range(s, i + 1, j);
    }
}

proof fn lemma_first_match_some(s: Seq<char>, i: int)
    requires
        0 <= i < s.len(),
        match_at(s, i),
        forall|k: int| 0 <= k < i ==> !match_at(s, k),
    ensures
        first_match_from(s, 0) == Some(i),
{
    lemma_first_match_from(s, 0, i);
}

proof fn lemma_first_match_from(s: Seq<char>, j: int, i: int)
    requires
        0 <= j <= i < s.len(),
        match_at(s, i),
        forall|k: int| j <= k < i ==> !match_at(s, k),
    ensures
        first_match_from(s, j) == Some(i),
    decreases i - j,
{
    if j < i {
        lemma_first_match_from(s, j + 1, i);
    }
}

proof fn lemma_first_match_none(s: Seq<char>, j: int)
    requires
        0 <= j <= s.len(),
        forall|k: int| j <= k < s.len() ==> !match_at(s, k),
    ensures
        first_match_from(s, j) is None,
    decreases s.len() - j,
{
    if j < s.len() {
        lemma_first_match_none(s, j + 1);
    }
}

proof fn lemma_dec_chars_props(n: nat)
    ensures
        dec_chars(n).len() >= 1,
        forall|k: int| 0 <= k < dec_chars(n).len() ==> is_digit(#[trigger] dec_chars(n)[k]),
        digits_val(dec_chars(n)) == n,
    decreases n,
{
    if n < 10 {
        let s = dec_chars(n);
        assert(s.drop_last() =~= Seq::<char>::empty());
        assert(digits_val(Seq::<char>::empty()) == 0);
        assert(s.last() == digit_char(n as int));
        assert(digits_val(s) == digits_val(s.drop_last()) * 10 + digit_val(s.last()));
        assert(digits_val(s) == digit_val(digit_char(n as int)));
    } else {
        lemma_dec_chars_props(n / 10);
        let s = dec_chars(n);
        assert(s.drop_last() =~= dec_chars(n / 10));
        assert(s.last() == digit_char((n % 10) as int));
        assert(digits_val(s) == (n / 10) * 10 + (n % 10));
    }
}

/// The canonical form of a version consists of `g`, `o`, dots and
/// digits alone — in particular it contains no quote character.
pub proof fn lemma_version_chars_plain(v: GoVersion)
    ensures
        forall|k: int|
            0 <= k < version_chars(v).len() ==> #[trigger] version_chars(v)[k] == 'g'
                || version_chars(v)[k] == 'o' || version_chars(v)[k] == '.' || is_digit(
                version_chars(v)[k],
            ),
{
    let s = version_chars(v);
    let aa = dec_chars(v.major as nat);
    let bb = dec_chars(v.minor as nat);
    let cc = dec_chars(v.patch as nat);
    lemma_dec_chars_props(v.major as nat);
    lemma_dec_chars_props(v.minor as nat);
    lemma_dec_chars_props(v.patch as nat);
    assert forall|k: int| 0 <= k < s.len() implies #[trigger] s[k] == 'g' || s[k] == 'o' || s[k]
        == '.' || is_digit(s[k]) by {
        let a: int = 2;
        let b = a + aa.len() as int;
        let c = b + 1;
        let d = c + bb.len() as int;
        let e = d + 1;
        if a <= k < b {
            assert(s[k] == aa[k - a]);
        } else if c <= k < d {
            assert(s[k] == bb[k - c]);
        } else if e <= k {
            assert(s[k] == cc[k - e]);
        }
    }
}

/// Round trip: parsing the canonical form of a version yields exactly
/// that version's components.
pub proof fn lemma_parse_roundtrip(v: GoVersion)
    ensures
        parse_spec(version_chars(v)) == Some((v.major as int, v.minor as int, v.patch as int)),
{
    let s = version_chars(v);
    let aa = dec_chars(v.major as nat);
    let bb = dec_chars(v.minor as nat);
    let cc = dec_chars(v.patch as nat);
    lemma_dec_chars_props(v.major as nat);
    lemma_dec_chars_props(v.minor as nat);
    lemma_dec_chars_props(v.patch as nat);
    let a: int = 2;
    let b = a + aa.len() as int;
    let c = b + 1;
    let d = c + bb.len() as int;
    let e = d + 1;
    let f = e + cc.len() as int;
    assert(s.len() == f);
    assert(s[0] == 'g');
    assert(s[1] == 'o');
    assert(s.subrange(a, b) =~= aa);
    assert(s[b] == '.');
    assert(s.subrange(c, d) =~= bb);
    assert(s[d] == '.');
    assert(s.subrange(e, f) =~= cc);
    lemma_digits_end_range(s, a, b);
    lemma_digits_end_range(s, c, d);
    lemma_digits_end_range(s, e, f);
    assert(match_at(s, 0));
    lemma_first_match_some(s, 0);
    assert(nums_at(s, 0) == (v.major as int, v.minor as int, v.patch as int));
}

/// Whether `c` is a decimal digit.
fn is_digit_exec(c: char) -> (r: bool)
    ensures
        r == is_digit(c),
{
    '0' <= c && c <= '9'
}

/// Scans the run of digits starting at `from`.
fn scan_digits(s: &str, from: usize) -> (end: usize)
    requires
        from <= s@.len(),
    ensures
        from <= end <= s@.len(),
        end == digits_end(s@, from as int),
        forall|k: int| from <= k < end ==> is_digit(#[trigger] s@[k]),
        end == s@.len() || !is_digit(s@[end as int]),
{
    let len = s.unicode_len();
    let mut j = from;
    while j < len && is_digit_exec(s.get_char(j))
        invariant
            from <= j <= len,
            len == s@.len(),
            digits_end(s@, from as int) == digits_end(s@, j as int),
            forall|k: int| from <= k < j ==> is_digit(#[trigger] s@[k]),
        decreases len - j,
    {
        j = j + 1;
    }
    j
}

/// Reads the number denoted by the digit run `s[from..to]`, or reports
/// that it does not fit in 32 bits.
fn parse_u32(s: &str, from: usize, to: usize) -> (r: Option<u32>)
    requires
        from <= to <= s@.len(),
        forall|k: int| from <= k < to ==> is_digit(#[trigger] s@[k]),
    ensures
        match r {
            Some(x) => x as int == digits_val(s@.subrange(from as int, to as int)),
            None => digits_val(s@.subrange(from as int, to as int)) > u32::MAX,
        },
{
    let mut acc: u32 = 0;
    let mut j = from;
    proof {
        assert(s@.subrange(from as int, from as int) =~= Seq::<char>::empty());
    }
    while j < to
        invariant
            from <= j <= to <= s@.len(),
            forall|k: int| from <= k < to ==> is_digit(#[trigger] s@[k]),
            acc as int == digits_val(s@.subrange(from as int, j as int)),
        decreases to - j,
    {
        let c = s.get_char(j);
        let d = (c as u32) - ('0' as u32);
        proof {
            assert(is_digit(s@[j as int]));
            assert(d == digit_val(s@[j as int]));
            lemma_digits_val_snoc(s@, from as int, j as int);
        }
        let wide: u64 = (acc as u64) * 10 + (d as u64);
        if wide > u32::MAX as u64 {
            proof {
                lemma_digits_val_mono(s@, from as int, j as int + 1, to as int);
            }
            return None;
        }
        acc = wide as u32;
        j = j + 1;
    }
    Some(acc)
}

impl GoVersion {
    /// Parses a version out of a string: the leftmost occurrence of
    /// `go` followed by one or two dot-separated numbers (a missing
    /// patch component defaults to zero; surrounding text is ignored).
    /// Fails when the pattern occurs nowhere, or when a matched
    /// component does not fit in 32 bits.
    pub fn parse(s: &str) -> (r: Result<GoVersion, ParseError>)
        ensures
            match r {
                Ok(v) => {
                    &&& parse_spec(s@) == Some(
                        (v.major as int, v.minor as int, v.patch as int),
                    )
                },
                Err(_) => match parse_spec(s@) {
                    None => true,
                    Some(t) => t.0 > u32::MAX || t.1 > u32::MAX || t.2 > u32::MAX,
                },
            },
    {
        let len = s.unicode_len();
        let mut i: usize = 0;
        while i < len
            invariant
                0 <= i <= len,
                len == s@.len(),
                forall|k: int| 0 <= k < i ==> !match_at(s@, k),
            decreases len - i,
        {
            if s.get_char(i) == 'g' && i + 1 < len && s.get_char(i + 1) == 'o' {
                let a = i + 2;
                let b = scan_digits(s, a);
                if b > a && b < len && s.get_char(b) == '.' {
                    let c = b + 1;
                    let d = scan_digits(s, c);
                    if d > c {
                        proof {
                            assert(match_at(s@, i as int));
                            lemma_first_match_some(s@, i as int);
                        }
                        let patch_val: Option<u32> = if d < len && s.get_char(d) == '.' {
                            let e = scan_digits(s, d + 1);
                            if e > d + 1 {
                                parse_u32(s, d + 1, e)
                            } else {
                                Some(0)
                            }
                        } else {
                            Some(0)
                        };
                        let major_val = parse_u32(s, a, b);
                        let minor_val = parse_u32(s, c, d);
                        return match (major_val, minor_val, patch_val) {
                            (Some(major), Some(minor), Some(patch)) => Ok(
                                GoVersion { major, minor, patch },
                            ),
                            _ => Err(ParseError),
                        };
                    }
                }
            }
            proof {
                assert(!match_at(s@, i as int));
            }
            i = i + 1;
        }
        proof {
            lemma_first_match_none(s@, 0);
        }
        Err(ParseError)
    }
}

} // verus!
