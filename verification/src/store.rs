//! Reading and writing the state file's text.
//!
//! The record is persisted as one JSON object with the fields
//! `enabled` (a version string, or null), `installed` and `pinned`
//! (arrays of version strings).  `store` renders that text exactly;
//! `load` reads it back, and accepts precisely the renderings of
//! well-formed records — the file is only ever written by `store`.
//! The surrounding application does the actual file reads and writes.

use crate::state::{empty_model, VersionFile};
use crate::version::{version_chars, GoVersion};
use crate::version_set::strictly_sorted;
use vstd::prelude::*;
use vstd::string::*;

verus! {

/// The state file's text is not the rendering of any record.
#[derive(Debug, Clone, Copy, PartialEq, Eq, Structural)]
pub struct LoadError;

impl LoadError {
    /// A human-readable description of the failure.
    pub fn message(&self) -> String {
        "unable to parse version information file".to_owned()
    }
}

/// A version string in its JSON quotes.
pub open spec fn quoted_chars(v: GoVersion) -> Seq<char> {
    seq!['"'] + version_chars(v) + seq!['"']
}

/// The JSON value of the enabled slot.
pub open spec fn enabled_chars(e: Option<GoVersion>) -> Seq<char> {
    match e {
        None => "null"@,
        Some(v) => quoted_chars(v),
    }
}

/// The members of a JSON array of version strings.
pub open spec fn list_chars(vs: Seq<GoVersion>) -> Seq<char>
    decreases vs.len(),
{
    if vs.len() == 0 {
        Seq::empty()
    } else if vs.len() == 1 {
        quoted_chars(vs[0])
    } else {
        quoted_chars(vs[0]) + seq![','] + list_chars(vs.drop_first())
    }
}

/// The full JSON text of a record.
pub open spec fn encode_chars(
    e: Option<GoVersion>,
    installed: Seq<GoVersion>,
    pinned: Seq<GoVersion>,
) -> Seq<char> {
    "{\"enabled\":"@ + enabled_chars(e) + ",\"installed\":["@ + list_chars(installed)
        + "],\"pinned\":["@ + list_chars(pinned) + "]}"@
}

/// Appending one more version to a rendered array adds a separator
/// (when the array was not empty) and the quoted version.
proof fn lemma_list_chars_push(vs: Seq<GoVersion>, x: GoVersion)
    ensures
        list_chars(vs.push(x)) == if vs.len() == 0 {
            quoted_chars(x)
        } else {
            list_chars(vs) + seq![','] + quoted_chars(x)
        },
    decreases vs.len(),
{
    let w = vs.push(x);
    if vs.len() == 0 {
        assert(w[0] == x);
    } else {
        assert(w.drop_first() =~= vs.drop_first().push(x));
        lemma_list_chars_push(vs.drop_first(), x);
        assert(w[0] == vs[0]);
        if vs.len() == 1 {
            assert(list_chars(w) == quoted_chars(vs[0]) + seq![','] + quoted_chars(x));
            assert(list_chars(vs) == quoted_chars(vs[0]));
        } else {
            assert(list_chars(w) == quoted_chars(vs[0]) + seq![','] + (list_chars(vs.drop_first())
                + seq![','] + quoted_chars(x)));
            assert(quoted_chars(vs[0]) + seq![','] + (list_chars(vs.drop_first()) + seq![',']
                + quoted_chars(x)) =~= (quoted_chars(vs[0]) + seq![','] + list_chars(
                vs.drop_first(),
            )) + seq![','] + quoted_chars(x));
        }
    }
}

/// Appends a version in quotes.
fn append_quoted(s: &mut String, v: GoVersion)
    ensures
        final(s)@ == old(s)@ + quoted_chars(v),
{
    let ghost orig = s@;
    proof {
        reveal_strlit("\"");
    }
    s.append("\"");
    s.append(v.to_version_string().as_str());
    s.append("\"");
    proof {
        assert(s@ =~= orig + quoted_chars(v));
    }
}

/// Appends the members of the array for these versions.
fn append_list(s: &mut String, items: &Vec<GoVersion>)
    ensures
        final(s)@ == old(s)@ + list_chars(items@),
{
    let ghost orig = s@;
    let n = items.len();
    let mut i: usize = 0;
    proof {
        assert(orig + list_chars(items@.subrange(0, 0)) =~= orig);
    }
    while i < n
        invariant
            0 <= i <= n,
            n == items@.len(),
            s@ == orig + list_chars(items@.subrange(0, i as int)),
        decreases n - i,
    {
        if i > 0 {
            proof {
                reveal_strlit(",");
            }
            s.append(",");
        }
        append_quoted(s, items[i]);
        proof {
            assert(items@.subrange(0, i + 1) =~= items@.subrange(0, i as int).push(
                items@[i as int],
            ));
            lemma_list_chars_push(items@.subrange(0, i as int), items@[i as int]);
            assert(s@ =~= orig + list_chars(items@.subrange(0, i + 1)));
        }
        i = i + 1;
    }
    proof {
        assert(items@.subrange(0, n as int) =~= items@);
    }
}

impl VersionFile {
    /// The exact JSON text of the record: what gets written over the
    /// state file, in full, at the end of every successful operation.
    pub fn store(&self) -> (r: String)
        ensures
            r@ == encode_chars(self.enabled, self.installed.items@, self.pinned.items@),
    {
        let mut s = String::from_str("{\"enabled\":");
        match self.enabled {
            Some(v) => append_quoted(&mut s, v),
            None => s.append("null"),
        }
        s.append(",\"installed\":[");
        append_list(&mut s, &self.installed.items);
        s.append("],\"pinned\":[");
        append_list(&mut s, &self.pinned.items);
        s.append("]}");
        proof {
            assert(s@ =~= encode_chars(self.enabled, self.installed.items@, self.pinned.items@));
        }
        s
    }
}

/// A quoted version stands at `[i, end)` of the text.
pub open spec fn quoted_at(s: Seq<char>, i: int, end: int, v: GoVersion) -> bool {
    &&& 0 <= i < end <= s.len()
    &&& s.subrange(i, end) == quoted_chars(v)
}

/// The enabled slot's value stands at `[i, end)` of the text.
pub open spec fn enabled_at(s: Seq<char>, i: int, end: int, e: Option<GoVersion>) -> bool {
    &&& 0 <= i < end <= s.len()
    &&& s.subrange(i, end) == enabled_chars(e)
}

/// The members of an array stand at `[i, end)` of the text, bounded by
/// something that continues no member.
pub open spec fn items_at(s: Seq<char>, i: int, end: int, vs: Seq<GoVersion>) -> bool {
    &&& 0 <= i <= end <= s.len()
    &&& s.subrange(i, end) == list_chars(vs)
    &&& (end == s.len() || (s[end] != ',' && s[end] != '"'))
}

/// The first position at or after `i` holding a quote.
pub open spec fn quote_end(s: Seq<char>, i: int) -> int
    decreases s.len() - i,
{
    if i < s.len() && s[i] != '"' {
        quote_end(s, i + 1)
    } else {
        i
    }
}

/// Scans for the next quote.
fn scan_quote(s: &str, from: usize) -> (end: usize)
    requires
        from <= s@.len(),
    ensures
        from <= end <= s@.len(),
        end == quote_end(s@, from as int),
        forall|k: int| from <= k < end ==> #[trigger] s@[k] != '"',
        end == s@.len() || s@[end as int] == '"',
{
    let len = s.unicode_len();
    let mut j = from;
    while j < len && s.get_char(j) != '"'
        invariant
            from <= j <= len,
            len == s@.len(),
            quote_end(s@, from as int) == quote_end(s@, j as int),
            forall|k: int| from <= k < j ==> #[trigger] s@[k] != '"',
        decreases len - j,
    {
        j = j + 1;
    }
    j
}

/// A quote-free region bounded by a quote (or the end) is exactly
/// where the quote scan stops.
proof fn lemma_quote_end_range(s: Seq<char>, i: int, j: int)
    requires
        0 <= i <= j <= s.len(),
        forall|k: int| i <= k < j ==> #[trigger] s[k] != '"',
        j == s.len() || s[j] == '"',
    ensures
        quote_end(s, i) == j,
    decreases j - i,
{
    if i < j {
        lemma_quote_end_range(s, i + 1, j);
    }
}

/// The shape of a quoted version within a longer text.
proof fn lemma_quoted_shape(s: Seq<char>, i: int, end: int, v: GoVersion)
    requires
        quoted_at(s, i, end, v),
    ensures
        end - i == version_chars(v).len() + 2,
        s[i] == '"',
        s[end - 1] == '"',
        forall|k: int| i + 1 <= k < end - 1 ==> #[trigger] s[k] != '"',
        s.subrange(i + 1, end - 1) == version_chars(v),
{
    crate::version::lemma_version_chars_plain(v);
    let q = quoted_chars(v);
    let vc = version_chars(v);
    assert(q.len() == vc.len() + 2);
    assert(s.subrange(i, end)[0] == s[i]);
    assert(q[0] == '"');
    assert(s.subrange(i, end)[end - i - 1] == s[end - 1]);
    assert(q[q.len() - 1] == '"');
    assert forall|k: int| i + 1 <= k < end - 1 implies #[trigger] s[k] != '"' by {
        assert(s.subrange(i, end)[k - i] == s[k]);
        assert(q[k - i] == vc[k - i - 1]);
        assert(vc[k - i - 1] == 'g' || vc[k - i - 1] == 'o' || vc[k - i - 1] == '.'
            || crate::version::is_digit(vc[k - i - 1]));
    }
    assert forall|m: int| 0 <= m < vc.len() implies s.subrange(i + 1, end - 1)[m] == vc[m] by {
        assert(s.subrange(i + 1, end - 1)[m] == s[i + 1 + m]);
        assert(s.subrange(i, end)[m + 1] == s[i + 1 + m]);
        assert(q[m + 1] == vc[m]);
    }
    assert(s.subrange(i + 1, end - 1) =~= vc);
}

/// A rendered non-empty array starts with its first member in quotes;
/// when there are more members, a comma follows, and the rest of the
/// array stands after it.
proof fn lemma_list_head(s: Seq<char>, i: int, end: int, vs: Seq<GoVersion>)
    requires
        vs.len() > 0,
        0 <= i <= end <= s.len(),
        s.subrange(i, end) == list_chars(vs),
    ensures
        i + quoted_chars(vs[0]).len() <= end,
        quoted_at(s, i, i + quoted_chars(vs[0]).len(), vs[0]),
        vs.len() == 1 ==> end == i + quoted_chars(vs[0]).len(),
        vs.len() > 1 ==> {
            let p = i + quoted_chars(vs[0]).len();
            &&& p < end
            &&& s[p] == ','
            &&& s.subrange(p + 1, end) == list_chars(vs.drop_first())
            &&& vs.drop_first().len() > 0
        },
{
    let q = quoted_chars(vs[0]);
    let l = list_chars(vs);
    if vs.len() == 1 {
        assert(l == q);
        assert(end - i == q.len());
        assert(s.subrange(i, i + q.len() as int) =~= q);
    } else {
        let rest = list_chars(vs.drop_first());
        assert(l == q + seq![','] + rest);
        assert(l.len() == q.len() + 1 + rest.len());
        let p = i + q.len() as int;
        assert forall|m: int| 0 <= m < q.len() implies s.subrange(i, p)[m] == q[m] by {
            assert(s.subrange(i, p)[m] == s[i + m]);
            assert(s.subrange(i, end)[m] == s[i + m]);
            assert(l[m] == q[m]);
        }
        assert(s.subrange(i, p) =~= q);
        assert(s.subrange(i, end)[q.len() as int] == s[p]);
        assert(l[q.len() as int] == ',');
        assert forall|m: int| 0 <= m < rest.len() implies s.subrange(p + 1, end)[m] == rest[m] by {
            assert(s.subrange(p + 1, end)[m] == s[p + 1 + m]);
            assert(s.subrange(i, end)[q.len() + 1 + m] == s[p + 1 + m]);
            assert(l[q.len() + 1 + m] == rest[m]);
        }
        assert(s.subrange(p + 1, end) =~= rest);
    }
}

/// Reads the given literal at position `i`, or reports that it is not
/// there.
fn expect_lit(s: &str, i: usize, lit: &str) -> (r: Option<usize>)
    requires
        i <= s@.len(),
    ensures
        match r {
            Some(p) => p == i + lit@.len() && p <= s@.len() && s@.subrange(i as int, p as int)
                == lit@,
            None => i + lit@.len() > s@.len() || s@.subrange(i as int, i + lit@.len()) != lit@,
        },
{
    let len = s.unicode_len();
    let l = lit.unicode_len();
    if l > len - i {
        return None;
    }
    let sub = s.substring_char(i, i + l);
    if crate::catalog::str_eq(sub, lit) {
        Some(i + l)
    } else {
        None
    }
}

/// Reads a quoted version at position `i`.  Wherever a quoted version
/// stands at `i`, it is read back exactly.
fn parse_quoted(s: &str, i: usize) -> (r: Option<(GoVersion, usize)>)
    requires
        i <= s@.len(),
    ensures
        r matches Some(p) ==> i < p.1 <= s@.len(),
        forall|v: GoVersion, end: int|
            #[trigger] quoted_at(s@, i as int, end, v) ==> (match r {
                Some(p) => p.0 == v && p.1 == end,
                None => false,
            }),
{
    let len = s.unicode_len();
    if i >= len || s.get_char(i) != '"' {
        proof {
            assert forall|v: GoVersion, end: int|
                #[trigger] quoted_at(s@, i as int, end, v) implies false by {
                lemma_quoted_shape(s@, i as int, end, v);
            }
        }
        return None;
    }
    let j = scan_quote(s, i + 1);
    if j >= len {
        proof {
            assert forall|v: GoVersion, end: int|
                #[trigger] quoted_at(s@, i as int, end, v) implies false by {
                lemma_quoted_shape(s@, i as int, end, v);
                lemma_quote_end_range(s@, i + 1, end - 1);
            }
        }
        return None;
    }
    let content = s.substring_char(i + 1, j);
    match GoVersion::parse(content) {
        Ok(got) => {
            proof {
                assert forall|v: GoVersion, end: int|
                    #[trigger] quoted_at(s@, i as int, end, v) implies (got == v && j + 1
                    == end) by {
                    lemma_quoted_shape(s@, i as int, end, v);
                    lemma_quote_end_range(s@, i + 1, end - 1);
                    assert(content@ == version_chars(v));
                    crate::version::lemma_parse_roundtrip(v);
                    assert(got.major == v.major && got.minor == v.minor && got.patch == v.patch);
                }
            }
            Some((got, j + 1))
        },
        Err(_) => {
            proof {
                assert forall|v: GoVersion, end: int|
                    #[trigger] quoted_at(s@, i as int, end, v) implies false by {
                    lemma_quoted_shape(s@, i as int, end, v);
                    lemma_quote_end_range(s@, i + 1, end - 1);
                    assert(content@ == version_chars(v));
                    crate::version::lemma_parse_roundtrip(v);
                }
            }
            None
        },
    }
}

/// Reads the enabled slot's value (null, or a quoted version) at
/// position `i`.
fn parse_enabled(s: &str, i: usize) -> (r: Option<(Option<GoVersion>, usize)>)
    requires
        i <= s@.len(),
    ensures
        r matches Some(p) ==> i < p.1 <= s@.len(),
        forall|e: Option<GoVersion>, end: int|
            #[trigger] enabled_at(s@, i as int, end, e) ==> (match r {
                Some(p) => p.0 == e && p.1 == end,
                None => false,
            }),
{
    proof {
        reveal_strlit("null");
    }
    match expect_lit(s, i, "null") {
        Some(p) => {
            proof {
                assert forall|e: Option<GoVersion>, end: int|
                    #[trigger] enabled_at(s@, i as int, end, e) implies (e is None && p
                    == end) by {
                    if let Some(v) = e {
                        assert(quoted_at(s@, i as int, end, v));
                        lemma_quoted_shape(s@, i as int, end, v);
                        assert(s@.subrange(i as int, i + 4)[0] == s@[i as int]);
                    } else {
                        assert(s@.subrange(i as int, end).len() == 4);
                    }
                }
            }
            Some((None, p))
        },
        None => {
            match parse_quoted(s, i) {
                Some((v, p)) => {
                    proof {
                        assert forall|e: Option<GoVersion>, end: int|
                            #[trigger] enabled_at(s@, i as int, end, e) implies (e == Some(v) && p
                            == end) by {
                            match e {
                                None => {
                                    assert(s@.subrange(i as int, end).len() == 4);
                                    assert(end == i + 4);
                                },
                                Some(w) => {
                                    assert(quoted_at(s@, i as int, end, w));
                                },
                            }
                        }
                    }
                    Some((Some(v), p))
                },
                None => {
                    proof {
                        assert forall|e: Option<GoVersion>, end: int|
                            #[trigger] enabled_at(s@, i as int, end, e) implies false by {
                            match e {
                                None => {
                                    assert(s@.subrange(i as int, end).len() == 4);
                                    assert(end == i + 4);
                                },
                                Some(w) => {
                                    assert(quoted_at(s@, i as int, end, w));
                                },
                            }
                        }
                    }
                    None
                },
            }
        },
    }
}

/// Reads one or more comma-separated quoted versions starting at `i`.
fn parse_items_rec(s: &str, i: usize) -> (r: Option<(Vec<GoVersion>, usize)>)
    requires
        i <= s@.len(),
    ensures
        r matches Some(p) ==> i < p.1 <= s@.len(),
        forall|vs: Seq<GoVersion>, end: int|
            #[trigger] items_at(s@, i as int, end, vs) && vs.len() > 0 ==> (match r {
                Some(p) => p.0@ == vs && p.1 == end,
                None => false,
            }),
    decreases s@.len() - i,
{
    let first = parse_quoted(s, i);
    let len = s.unicode_len();
    match first {
        None => {
            proof {
                assert forall|vs: Seq<GoVersion>, end: int|
                    #[trigger] items_at(s@, i as int, end, vs) && vs.len() > 0 implies false by {
                    lemma_list_head(s@, i as int, end, vs);
                }
            }
            None
        },
        Some((v, p)) => {
            if p < len && s.get_char(p) == ',' {
                match parse_items_rec(s, p + 1) {
                    Some((mut rest, end)) => {
                        let ghost rest0 = rest@;
                        rest.insert(0, v);
                        let out = rest;
                        proof {
                            assert forall|vs: Seq<GoVersion>, end0: int|
                                #[trigger] items_at(s@, i as int, end0, vs) && vs.len()
                                > 0 implies (out@ == vs && end == end0) by {
                                lemma_list_head(s@, i as int, end0, vs);
                                assert(v == vs[0]);
                                if vs.len() == 1 {
                                    assert(p == end0);
                                } else {
                                    assert(items_at(s@, p + 1, end0, vs.drop_first()));
                                    assert(rest0 == vs.drop_first());
                                    assert(out@ =~= vs);
                                }
                            }
                        }
                        Some((out, end))
                    },
                    None => {
                        proof {
                            assert forall|vs: Seq<GoVersion>, end0: int|
                                #[trigger] items_at(s@, i as int, end0, vs) && vs.len()
                                > 0 implies false by {
                                lemma_list_head(s@, i as int, end0, vs);
                                assert(v == vs[0]);
                                if vs.len() == 1 {
                                    assert(p == end0);
                                } else {
                                    assert(items_at(s@, p + 1, end0, vs.drop_first()));
                                }
                            }
                        }
                        None
                    },
                }
            } else {
                let mut out: Vec<GoVersion> = Vec::new();
                out.push(v);
                proof {
                    assert forall|vs: Seq<GoVersion>, end0: int|
                        #[trigger] items_at(s@, i as int, end0, vs) && vs.len() > 0 implies (out@
                        == vs && p == end0) by {
                        lemma_list_head(s@, i as int, end0, vs);
                        assert(v == vs[0]);
                        if vs.len() > 1 {
                            assert(s@[p as int] == ',');
                        } else {
                            assert(p == end0);
                            assert(out@ =~= vs);
                        }
                    }
                }
                Some((out, p))
            }
        },
    }
}

/// Reads the members of an array of quoted versions at position `i`.
/// Wherever such members stand at `i`, bounded by something that
/// continues no member, they are read back exactly.
fn parse_items(s: &str, i: usize) -> (r: Option<(Vec<GoVersion>, usize)>)
    requires
        i <= s@.len(),
    ensures
        r matches Some(p) ==> i <= p.1 <= s@.len(),
        forall|vs: Seq<GoVersion>, end: int|
            #[trigger] items_at(s@, i as int, end, vs) ==> (match r {
                Some(p) => p.0@ == vs && p.1 == end,
                None => false,
            }),
{
    let len = s.unicode_len();
    if i < len && s.get_char(i) == '"' {
        let r = parse_items_rec(s, i);
        proof {
            assert forall|vs: Seq<GoVersion>, end: int|
                #[trigger] items_at(s@, i as int, end, vs) implies (match r {
                Some(p) => p.0@ == vs && p.1 == end,
                None => false,
            }) by {
                if vs.len() == 0 {
                    assert(s@.subrange(i as int, end).len() == end - i);
                    assert(list_chars(vs).len() == 0);
                    assert(end == i);
                }
            }
        }
        r
    } else {
        proof {
            assert forall|vs: Seq<GoVersion>, end: int|
                #[trigger] items_at(s@, i as int, end, vs) implies (vs.len() == 0 && end == i) by {
                if vs.len() > 0 {
                    lemma_list_head(s@, i as int, end, vs);
                    lemma_quoted_shape(s@, i as int, i + quoted_chars(vs[0]).len() as int, vs[0]);
                } else {
                    assert(s@.subrange(i as int, end).len() == end - i);
                    assert(list_chars(vs).len() == 0);
                }
            }
        }
        Some((Vec::new(), i))
    }
}

/// An adjacent-pairs check decides strict sortedness.
fn is_sorted_vec(v: &Vec<GoVersion>) -> (r: bool)
    ensures
        r == strictly_sorted(v@),
{
    let n = v.len();
    if n == 0 {
        return true;
    }
    let mut i: usize = 1;
    while i < n
        invariant
            1 <= i <= n,
            n == v@.len(),
            strictly_sorted(v@.subrange(0, i as int)),
        decreases n - i,
    {
        if !v[i - 1].lt(&v[i]) {
            proof {
                assert(!strictly_sorted(v@));
            }
            return false;
        }
        proof {
            let pre = v@.subrange(0, i as int);
            let cur = v@.subrange(0, i + 1);
            assert forall|a: int, b: int| 0 <= a < b < cur.len() implies crate::version::version_lt(
                cur[a],
                cur[b],
            ) by {
                assert(cur[a] == v@[a]);
                assert(cur[b] == v@[b]);
                if b < i {
                    assert(crate::version::version_lt(pre[a], pre[b]));
                } else if a < i - 1 {
                    assert(crate::version::version_lt(pre[a], pre[i - 1]));
                    crate::version::lemma_version_order_total(v@[a], v@[i - 1], v@[i as int]);
                }
            }
        }
        i = i + 1;
    }
    proof {
        assert(v@.subrange(0, n as int) =~= v@);
    }
    true
}

/// Where each part of a rendered record stands in its text.
proof fn lemma_encode_decompose(
    s: Seq<char>,
    e: Option<GoVersion>,
    inst: Seq<GoVersion>,
    pin: Seq<GoVersion>,
)
    requires
        s == encode_chars(e, inst, pin),
    ensures
        ({
            let p1 = "{\"enabled\":"@.len() as int;
            let p2 = p1 + enabled_chars(e).len();
            let p3 = p2 + ",\"installed\":["@.len();
            let p4 = p3 + list_chars(inst).len();
            let p5 = p4 + "],\"pinned\":["@.len();
            let p6 = p5 + list_chars(pin).len();
            &&& s.len() == p6 + "]}"@.len()
            &&& s.subrange(0, p1) == "{\"enabled\":"@
            &&& enabled_at(s, p1, p2, e)
            &&& s.subrange(p2, p3) == ",\"installed\":["@
            &&& items_at(s, p3, p4, inst)
            &&& s.subrange(p4, p5) == "],\"pinned\":["@
            &&& items_at(s, p5, p6, pin)
            &&& s.subrange(p6, s.len() as int) == "]}"@
        }),
{
    reveal_strlit("{\"enabled\":");
    reveal_strlit(",\"installed\":[");
    reveal_strlit("],\"pinned\":[");
    reveal_strlit("]}");
    reveal_strlit("null");
    let l1 = "{\"enabled\":"@;
    let l3 = ",\"installed\":["@;
    let l5 = "],\"pinned\":["@;
    let l7 = "]}"@;
    let p1 = l1.len() as int;
    let p2 = p1 + enabled_chars(e).len();
    let p3 = p2 + l3.len();
    let p4 = p3 + list_chars(inst).len();
    let p5 = p4 + l5.len();
    let p6 = p5 + list_chars(pin).len();
    assert(s.len() == p6 + l7.len());
    if let Some(v) = e {
        assert(enabled_chars(e).len() >= 2);
    }
    assert(s.subrange(0, p1) =~= l1);
    assert(s.subrange(p1, p2) =~= enabled_chars(e));
    assert(s.subrange(p2, p3) =~= l3);
    assert(s.subrange(p3, p4) =~= list_chars(inst));
    assert(s.subrange(p4, p5) =~= l5);
    assert(s.subrange(p5, p6) =~= list_chars(pin));
    assert(s.subrange(p6, s.len() as int) =~= l7);
    assert(s[p4] == l5[0]);
    assert(s[p6] == l7[0]);
    assert(enabled_at(s, p1, p2, e));
    assert(items_at(s, p3, p4, inst));
    assert(items_at(s, p5, p6, pin));
}

/// Whether a sorted record renders exactly this text.
pub open spec fn canonical(
    s: Seq<char>,
    e: Option<GoVersion>,
    inst: Seq<GoVersion>,
    pin: Seq<GoVersion>,
) -> bool {
    &&& strictly_sorted(inst)
    &&& strictly_sorted(pin)
    &&& s == encode_chars(e, inst, pin)
}

/// Reads a record from the state file's text, accepting exactly the
/// renderings of well-formed records.
fn read_record(s: &str) -> (r: Option<VersionFile>)
    ensures
        match r {
            Some(f) => f.wf() && s@ == encode_chars(
                f.enabled,
                f.installed.items@,
                f.pinned.items@,
            ),
            None => forall|e: Option<GoVersion>, inst: Seq<GoVersion>, pin: Seq<GoVersion>|
                !#[trigger] canonical(s@, e, inst, pin),
        },
{
    let len = s.unicode_len();
    let p1 = match expect_lit(s, 0, "{\"enabled\":") {
        Some(p) => p,
        None => {
            proof {
                assert forall|e: Option<GoVersion>, inst: Seq<GoVersion>, pin: Seq<GoVersion>|
                    !#[trigger] canonical(s@, e, inst, pin) by {
                    if canonical(s@, e, inst, pin) {
                        lemma_encode_decompose(s@, e, inst, pin);
                    }
                }
            }
            return None;
        },
    };
    let (en, p2) = match parse_enabled(s, p1) {
        Some(x) => x,
        None => {
            proof {
                assert forall|e: Option<GoVersion>, inst: Seq<GoVersion>, pin: Seq<GoVersion>|
                    !#[trigger] canonical(s@, e, inst, pin) by {
                    if canonical(s@, e, inst, pin) {
                        lemma_encode_decompose(s@, e, inst, pin);
                    }
                }
            }
            return None;
        },
    };
    let p3 = match expect_lit(s, p2, ",\"installed\":[") {
        Some(p) => p,
        None => {
            proof {
                assert forall|e: Option<GoVersion>, inst: Seq<GoVersion>, pin: Seq<GoVersion>|
                    !#[trigger] canonical(s@, e, inst, pin) by {
                    if canonical(s@, e, inst, pin) {
                        lemma_encode_decompose(s@, e, inst, pin);
                    }
                }
            }
            return None;
        },
    };
    let (inst, p4) = match parse_items(s, p3) {
        Some(x) => x,
        None => {
            proof {
                assert forall|e: Option<GoVersion>, inst: Seq<GoVersion>, pin: Seq<GoVersion>|
                    !#[trigger] canonical(s@, e, inst, pin) by {
                    if canonical(s@, e, inst, pin) {
                        lemma_encode_decompose(s@, e, inst, pin);
                    }
                }
            }
            return None;
        },
    };
    let p5 = match expect_lit(s, p4, "],\"pinned\":[") {
        Some(p) => p,
        None => {
            proof {
                assert forall|e: Option<GoVersion>, inst: Seq<GoVersion>, pin: Seq<GoVersion>|
                    !#[trigger] canonical(s@, e, inst, pin) by {
                    if canonical(s@, e, inst, pin) {
                        lemma_encode_decompose(s@, e, inst, pin);
                    }
                }
            }
            return None;
        },
    };
    let (pin, p6) = match parse_items(s, p5) {
        Some(x) => x,
        None => {
            proof {
                assert forall|e: Option<GoVersion>, inst: Seq<GoVersion>, pin: Seq<GoVersion>|
                    !#[trigger] canonical(s@, e, inst, pin) by {
                    if canonical(s@, e, inst, pin) {
                        lemma_encode_decompose(s@, e, inst, pin);
                    }
                }
            }
            return None;
        },
    };
    let fits = match expect_lit(s, p6, "]}") {
        Some(p) => p == len,
        None => false,
    };
    if !fits {
        proof {
            assert forall|e: Option<GoVersion>, inst0: Seq<GoVersion>, pin0: Seq<GoVersion>|
                !#[trigger] canonical(s@, e, inst0, pin0) by {
                if canonical(s@, e, inst0, pin0) {
                    lemma_encode_decompose(s@, e, inst0, pin0);
                }
            }
        }
        return None;
    }
    if !is_sorted_vec(&inst) || !is_sorted_vec(&pin) {
        proof {
            assert forall|e: Option<GoVersion>, inst0: Seq<GoVersion>, pin0: Seq<GoVersion>|
                !#[trigger] canonical(s@, e, inst0, pin0) by {
                if canonical(s@, e, inst0, pin0) {
                    lemma_encode_decompose(s@, e, inst0, pin0);
                }
            }
        }
        return None;
    }
    let f = VersionFile {
        enabled: en,
        installed: crate::version_set::VersionSet { items: inst },
        pinned: crate::version_set::VersionSet { items: pin },
    };
    let text = f.store();
    if crate::catalog::str_eq(text.as_str(), s) {
        Some(f)
    } else {
        proof {
            assert forall|e: Option<GoVersion>, inst0: Seq<GoVersion>, pin0: Seq<GoVersion>|
                !#[trigger] canonical(s@, e, inst0, pin0) by {
                if canonical(s@, e, inst0, pin0) {
                    lemma_encode_decompose(s@, e, inst0, pin0);
                }
            }
        }
        None
    }
}

impl VersionFile {
    /// Reads the record back from the state file.  `None` stands for a
    /// missing file and yields the zero-value record — absence is not
    /// an error.  Text is accepted exactly when it is the rendering of
    /// a well-formed record; anything else is a load error.
    pub fn load(contents: Option<&str>) -> (r: Result<VersionFile, LoadError>)
        ensures
            match contents {
                None => r matches Ok(f) && f.wf() && f@ == empty_model(),
                Some(s) => match r {
                    Ok(f) => f.wf() && s@ == encode_chars(
                        f.enabled,
                        f.installed.items@,
                        f.pinned.items@,
                    ),
                    Err(_) => forall|
                        e: Option<GoVersion>,
                        inst: Seq<GoVersion>,
                        pin: Seq<GoVersion>,
                    |
                        strictly_sorted(inst) && strictly_sorted(pin) ==> s@ != #[trigger] encode_chars(
                            e,
                            inst,
                            pin,
                        ),
                },
            },
    {
        let s = match contents {
            Some(s) => s,
            None => {
                return Ok(VersionFile::empty());
            },
        };
        match read_record(s) {
            Some(f) => Ok(f),
            None => {
                proof {
                    assert forall|e: Option<GoVersion>, inst: Seq<GoVersion>, pin: Seq<GoVersion>|
                        strictly_sorted(inst) && strictly_sorted(pin) implies s@
                        != #[trigger] encode_chars(e, inst, pin) by {
                        if s@ == encode_chars(e, inst, pin) {
                            assert(canonical(s@, e, inst, pin));
                        }
                    }
                }
                Err(LoadError)
            },
        }
    }
}

/// Two versions with the same canonical form are the same version.
proof fn lemma_version_chars_injective(v1: GoVersion, v2: GoVersion)
    requires
        version_chars(v1) == version_chars(v2),
    ensures
        v1 == v2,
{
    crate::version::lemma_parse_roundtrip(v1);
    crate::version::lemma_parse_roundtrip(v2);
}

/// At a given position of a text, at most one quoted version can be
/// read, and its extent is determined.
proof fn lemma_quoted_unique(s: Seq<char>, i: int, e1: int, v1: GoVersion, e2: int, v2: GoVersion)
    requires
        quoted_at(s, i, e1, v1),
        quoted_at(s, i, e2, v2),
    ensures
        v1 == v2,
        e1 == e2,
{
    lemma_quoted_shape(s, i, e1, v1);
    lemma_quoted_shape(s, i, e2, v2);
    lemma_quote_end_range(s, i + 1, e1 - 1);
    lemma_quote_end_range(s, i + 1, e2 - 1);
    assert(e1 == e2);
    assert(version_chars(v1) == version_chars(v2));
    lemma_version_chars_injective(v1, v2);
}

/// At a given position of a text, at most one enabled-slot value can
/// be read, and its extent is determined.
proof fn lemma_enabled_unique(
    s: Seq<char>,
    i: int,
    e1: int,
    o1: Option<GoVersion>,
    e2: int,
    o2: Option<GoVersion>,
)
    requires
        enabled_at(s, i, e1, o1),
        enabled_at(s, i, e2, o2),
    ensures
        o1 == o2,
        e1 == e2,
{
    reveal_strlit("null");
    match (o1, o2) {
        (None, None) => {
            assert(s.subrange(i, e1).len() == 4);
            assert(s.subrange(i, e2).len() == 4);
        },
        (Some(w1), Some(w2)) => {
            assert(quoted_at(s, i, e1, w1));
            assert(quoted_at(s, i, e2, w2));
            lemma_quoted_unique(s, i, e1, w1, e2, w2);
        },
        (None, Some(w2)) => {
            assert(s.subrange(i, e1)[0] == s[i]);
            assert(quoted_at(s, i, e2, w2));
            lemma_quoted_shape(s, i, e2, w2);
        },
        (Some(w1), None) => {
            assert(s.subrange(i, e2)[0] == s[i]);
            assert(quoted_at(s, i, e1, w1));
            lemma_quoted_shape(s, i, e1, w1);
        },
    }
}

/// At a given position of a text, at most one run of array members can
/// be read, and its extent is determined.
proof fn lemma_items_unique(
    s: Seq<char>,
    i: int,
    e1: int,
    vs1: Seq<GoVersion>,
    e2: int,
    vs2: Seq<GoVersion>,
)
    requires
        items_at(s, i, e1, vs1),
        items_at(s, i, e2, vs2),
    ensures
        vs1 == vs2,
        e1 == e2,
    decreases vs1.len(),
{
    if vs1.len() == 0 {
        assert(s.subrange(i, e1).len() == e1 - i);
        assert(e1 == i);
        if vs2.len() > 0 {
            lemma_list_head(s, i, e2, vs2);
            lemma_quoted_shape(s, i, i + quoted_chars(vs2[0]).len() as int, vs2[0]);
        }
        assert(s.subrange(i, e2).len() == e2 - i);
        assert(vs1 =~= vs2);
    } else if vs2.len() == 0 {
        assert(s.subrange(i, e2).len() == e2 - i);
        assert(e2 == i);
        lemma_list_head(s, i, e1, vs1);
        lemma_quoted_shape(s, i, i + quoted_chars(vs1[0]).len() as int, vs1[0]);
    } else {
        lemma_list_head(s, i, e1, vs1);
        lemma_list_head(s, i, e2, vs2);
        lemma_quoted_unique(
            s,
            i,
            i + quoted_chars(vs1[0]).len() as int,
            vs1[0],
            i + quoted_chars(vs2[0]).len() as int,
            vs2[0],
        );
        let p = i + quoted_chars(vs1[0]).len() as int;
        if vs1.len() == 1 && vs2.len() == 1 {
            assert(vs1 =~= vs2);
        } else if vs1.len() == 1 {
            assert(e1 == p);
            assert(s[p] == ',');
        } else if vs2.len() == 1 {
            assert(e2 == p);
            assert(s[p] == ',');
        } else {
            assert(items_at(s, p + 1, e1, vs1.drop_first()));
            assert(items_at(s, p + 1, e2, vs2.drop_first()));
            lemma_items_unique(s, p + 1, e1, vs1.drop_first(), e2, vs2.drop_first());
            assert(vs1.len() == vs2.len());
            assert forall|m: int| 0 <= m < vs1.len() implies vs1[m] == vs2[m] by {
                if m > 0 {
                    assert(vs1.drop_first()[m - 1] == vs2.drop_first()[m - 1]);
                }
            }
            assert(vs1 =~= vs2);
        }
    }
}

/// A record's rendering denotes that record alone: together with the
/// contracts of `store` and `load`, reading back a stored record
/// yields exactly the record that was stored.
pub proof fn lemma_encode_injective(
    e1: Option<GoVersion>,
    inst1: Seq<GoVersion>,
    pin1: Seq<GoVersion>,
    e2: Option<GoVersion>,
    inst2: Seq<GoVersion>,
    pin2: Seq<GoVersion>,
)
    requires
        encode_chars(e1, inst1, pin1) == encode_chars(e2, inst2, pin2),
    ensures
        e1 == e2,
        inst1 == inst2,
        pin1 == pin2,
{
    let s = encode_chars(e1, inst1, pin1);
    lemma_encode_decompose(s, e1, inst1, pin1);
    lemma_encode_decompose(s, e2, inst2, pin2);
    let p1 = "{\"enabled\":"@.len() as int;
    lemma_enabled_unique(
        s,
        p1,
        p1 + enabled_chars(e1).len(),
        e1,
        p1 + enabled_chars(e2).len(),
        e2,
    );
    let p3 = p1 + enabled_chars(e1).len() + ",\"installed\":["@.len();
    lemma_items_unique(
        s,
        p3,
        p3 + list_chars(inst1).len(),
        inst1,
        p3 + list_chars(inst2).len(),
        inst2,
    );
    let p5 = p3 + list_chars(inst1).len() + "],\"pinned\":["@.len();
    lemma_items_unique(s, p5, p5 + list_chars(pin1).len(), pin1, p5 + list_chars(pin2).len(), pin2);
}

} // verus!
