use vstd::prelude::*;
use vstd::string::StrSliceExecFns;

verus! {

/// Whitespace as `char::is_whitespace` defines it: the Unicode `White_Space`
/// property.
pub open spec fn is_space(c: char) -> bool {
    ('\u{9}' <= c && c <= '\u{d}') || c == ' ' || c == '\u{85}' || c == '\u{a0}'
        || c == '\u{1680}' || ('\u{2000}' <= c && c <= '\u{200a}') || c == '\u{2028}'
        || c == '\u{2029}' || c == '\u{202f}' || c == '\u{205f}' || c == '\u{3000}'
}

/// `s` without its leading whitespace.
pub open spec fn trim_start(s: Seq<char>) -> Seq<char>
    decreases s.len(),
{
    if s.len() > 0 && is_space(s[0]) {
        trim_start(s.drop_first())
    } else {
        s
    }
}

/// `s` without its trailing whitespace.
pub open spec fn trim_end(s: Seq<char>) -> Seq<char>
    decreases s.len(),
{
    if s.len() > 0 && is_space(s.last()) {
        trim_end(s.drop_last())
    } else {
        s
    }
}

/// `s` without whitespace at either end.
pub open spec fn trimmed(s: Seq<char>) -> Seq<char> {
    trim_end(trim_start(s))
}

/// `i` is the position of the one and only colon of `s`.
pub open spec fn sole_colon_at(s: Seq<char>, i: int) -> bool {
    0 <= i < s.len() && s[i] == ':' && forall|j: int|
        0 <= j < s.len() && j != i ==> s[j] != ':'
}

/// The number of colons in `s`.
pub open spec fn colon_count(s: Seq<char>) -> nat
    decreases s.len(),
{
    if s.len() == 0 {
        0
    } else {
        colon_count(s.drop_last()) + if s.last() == ':' {
            1nat
        } else {
            0nat
        }
    }
}

/// What parsing `s` gives: the trimmed text on either side of its only
/// colon, or nothing when `s` does not hold exactly one colon.
pub open spec fn parse_spec(s: Seq<char>) -> Option<(Seq<char>, Seq<char>)> {
    if exists|i: int| sole_colon_at(s, i) {
        let i = choose|i: int| sole_colon_at(s, i);
        Some((trimmed(s.take(i)), trimmed(s.skip(i + 1))))
    } else {
        None
    }
}

/// The text form of a header: `name: value`.
pub open spec fn render(name: Seq<char>, value: Seq<char>) -> Seq<char> {
    name + seq![':', ' '] + value
}

/// Relies on `str::trim`: the slice of `s` without leading and trailing
/// characters for which `char::is_whitespace` holds.
#[verifier::external_body]
fn trim_str(s: &str) -> (r: &str)
    ensures
        r@ == trimmed(s@),
{
    s.trim()
}

/// The text of several headers, each as `name: value`, one after another with
/// `\r\n` between two of them and none at the end.
pub open spec fn join_lines(hs: Seq<Header>) -> Seq<char>
    decreases hs.len(),
{
    if hs.len() == 0 {
        Seq::empty()
    } else if hs.len() == 1 {
        hs[0].rendered()
    } else {
        join_lines(hs.drop_last()) + seq!['\r', '\n'] + hs.last().rendered()
    }
}

/// An HTTP header: a name and a value.
#[derive(Debug)]
pub struct Header {
    name: String,
    value: String,
}

impl Header {
    /// The header's name.
    pub closed spec fn name_view(&self) -> Seq<char> {
        self.name@
    }

    /// The header's value.
    pub closed spec fn value_view(&self) -> Seq<char> {
        self.value@
    }

    /// The header's text form, `name: value`.
    pub open spec fn rendered(&self) -> Seq<char> {
        render(self.name_view(), self.value_view())
    }

    /// Makes a header from a name and a value, stored as given.
    pub fn new(name: &str, value: &str) -> (r: Header)
        ensures
            r.name_view() == name@,
            r.value_view() == value@,
    {
        Header { name: name.to_owned(), value: value.to_owned() }
    }

    /// A duplicate of this header with storage of its own.
    pub fn copy(&self) -> (r: Header)
        ensures
            r.name_view() == self.name_view(),
            r.value_view() == self.value_view(),
    {
        Header { name: self.name.clone(), value: self.value.clone() }
    }

    /// The header's name.
    pub fn name(&self) -> (r: &str)
        ensures
            r@ == self.name_view(),
    {
        self.name.as_str()
    }

    /// The header's value.
    pub fn value(&self) -> (r: &str)
        ensures
            r@ == self.value_view(),
    {
        self.value.as_str()
    }

    /// Parses `name: value`. The text must hold exactly one colon; both sides
    /// are trimmed of whitespace. Any other text gives `None`.
    pub fn from_string(header: &str) -> (r: Option<Header>)
        ensures
            r is None <==> parse_spec(header@) is None,
            r matches Some(h) ==> parse_spec(header@) == Some((h.name_view(), h.value_view())),
    {
        let n = header.unicode_len();
        let mut first: usize = n;
        let mut second: usize = n;
        let mut i: usize = 0;
        while i < n
            invariant
                n == header@.len(),
                i <= n,
                first <= n,
                second <= n,
                first == n ==> second == n,
                first == n ==> forall|j: int| 0 <= j < i ==> header@[j] != ':',
                first < n ==> first < i && header@[first as int] == ':',
                first < n && second == n ==> forall|j: int|
                    0 <= j < i && j != first ==> header@[j] != ':',
                second < n ==> first < second < i && header@[second as int] == ':',
            decreases n - i,
        {
            if header.get_char(i) == ':' {
                if first == n {
                    first = i;
                } else if second == n {
                    second = i;
                }
            }
            i = i + 1;
        }
        if first == n {
            assert(!exists|k: int| sole_colon_at(header@, k));
            return None;
        }
        if second < n {
            assert forall|k: int| !sole_colon_at(header@, k) by {
                if sole_colon_at(header@, k) {
                    if k == first as int {
                        assert(header@[second as int] == ':');
                    } else {
                        assert(header@[first as int] == ':');
                    }
                }
            }
            return None;
        }
        assert(sole_colon_at(header@, first as int));
        let ghost k = choose|k: int| sole_colon_at(header@, k);
        assert(k == first as int);
        let left = header.substring_char(0, first);
        let right = header.substring_char(first + 1, n);
        assert(left@ =~= header@.take(first as int));
        assert(right@ =~= header@.skip(first + 1));
        let name = trim_str(left);
        let value = trim_str(right);
        Some(Header { name: name.to_owned(), value: value.to_owned() })
    }

    /// The header's text form, `name: value`.
    pub fn to_string(&self) -> (r: String)
        ensures
            r@ == self.rendered(),
    {
        let mut out = self.name.clone();
        out.append(": ");
        out.append(self.value.as_str());
        proof {
            reveal_strlit(": ");
            assert(out@ =~= self.rendered());
        }
        out
    }
}

impl PartialEq for Header {
    fn eq(&self, other: &Header) -> (r: bool) {
        self.name == other.name && self.value == other.value
    }
}

impl vstd::std_specs::cmp::PartialEqSpecImpl for Header {
    open spec fn obeys_eq_spec() -> bool {
        true
    }

    open spec fn eq_spec(&self, other: &Header) -> bool {
        self.name_view() == other.name_view() && self.value_view() == other.value_view()
    }
}

/// All headers as text, each as `name: value`, separated by `\r\n`.
pub fn headers_to_string(headers: Vec<Header>) -> (r: String)
    ensures
        r@ == join_lines(headers@),
{
    let mut out = String::new();
    let mut i: usize = 0;
    while i < headers.len()
        invariant
            i <= headers@.len(),
            out@ == join_lines(headers@.take(i as int)),
        decreases headers@.len() - i,
    {
        let line = headers[i].to_string();
        if i > 0 {
            out.append("\r\n");
            proof {
                reveal_strlit("\r\n");
            }
        }
        out.append(line.as_str());
        proof {
            assert(headers@.take(i + 1).drop_last() =~= headers@.take(i as int));
            assert(headers@.take(i + 1).last() == headers@[i as int]);
        }
        i = i + 1;
        assert(out@ =~= join_lines(headers@.take(i as int)));
    }
    assert(headers@.take(headers@.len() as int) =~= headers@);
    out
}

/// Text that holds no colon counts none.
proof fn lemma_no_colon_count(s: Seq<char>)
    requires
        forall|j: int| 0 <= j < s.len() ==> s[j] != ':',
    ensures
        colon_count(s) == 0,
    decreases s.len(),
{
    if s.len() > 0 {
        lemma_no_colon_count(s.drop_last());
    }
}

/// Text with a single colon counts one.
proof fn lemma_sole_colon_count(s: Seq<char>, i: int)
    requires
        sole_colon_at(s, i),
    ensures
        colon_count(s) == 1,
    decreases s.len(),
{
    let t = s.drop_last();
    if i == s.len() - 1 {
        lemma_no_colon_count(t);
    } else {
        assert(sole_colon_at(t, i));
        lemma_sole_colon_count(t, i);
    }
}

/// Text that counts no colon holds none.
proof fn lemma_zero_count_no_colon(s: Seq<char>)
    requires
        colon_count(s) == 0,
    ensures
        forall|j: int| 0 <= j < s.len() ==> s[j] != ':',
    decreases s.len(),
{
    if s.len() > 0 {
        lemma_zero_count_no_colon(s.drop_last());
        assert forall|j: int| 0 <= j < s.len() implies s[j] != ':' by {
            if j < s.len() - 1 {
                assert(s[j] == s.drop_last()[j]);
            }
        }
    }
}

/// Text that counts one colon has it at a single place.
proof fn lemma_one_count_sole_colon(s: Seq<char>)
    requires
        colon_count(s) == 1,
    ensures
        exists|i: int| sole_colon_at(s, i),
    decreases s.len(),
{
    let t = s.drop_last();
    if s.last() == ':' {
        lemma_zero_count_no_colon(t);
        assert forall|j: int| 0 <= j < s.len() && j != s.len() - 1 implies s[j] != ':' by {
            assert(s[j] == t[j]);
        }
        assert(sole_colon_at(s, s.len() - 1));
    } else {
        lemma_one_count_sole_colon(t);
        let i = choose|i: int| sole_colon_at(t, i);
        assert forall|j: int| 0 <= j < s.len() && j != i implies s[j] != ':' by {
            if j < s.len() - 1 {
                assert(s[j] == t[j]);
            }
        }
        assert(sole_colon_at(s, i));
    }
}

/// Parsing gives a header exactly when the text holds one colon: none for
/// text with no colon or with two or more.
pub proof fn lemma_parse_rejects(s: Seq<char>)
    ensures
        parse_spec(s) is None <==> colon_count(s) != 1,
{
    if exists|i: int| sole_colon_at(s, i) {
        let i = choose|i: int| sole_colon_at(s, i);
        lemma_sole_colon_count(s, i);
    }
    if colon_count(s) == 1 {
        lemma_one_count_sole_colon(s);
    }
}

/// A leading space is dropped by trimming.
proof fn lemma_trim_leading_space(v: Seq<char>)
    ensures
        trimmed(seq![' '] + v) == trimmed(v),
{
    let s = seq![' '] + v;
    assert(is_space(s[0]));
    assert(s.drop_first() =~= v);
}

/// A header whose name and value hold no colon parses back from its text
/// form to its trimmed name and value, and to itself when both are already
/// trimmed.
pub proof fn lemma_round_trip(name: Seq<char>, value: Seq<char>)
    requires
        forall|j: int| 0 <= j < name.len() ==> name[j] != ':',
        forall|j: int| 0 <= j < value.len() ==> value[j] != ':',
    ensures
        parse_spec(render(name, value)) == Some((trimmed(name), trimmed(value))),
        trimmed(name) == name && trimmed(value) == value ==> parse_spec(render(name, value))
            == Some((name, value)),
{
    let s = render(name, value);
    let i = name.len() as int;
    assert(s[i] == ':');
    assert forall|j: int| 0 <= j < s.len() && j != i implies s[j] != ':' by {
        if j < i {
            assert(s[j] == name[j]);
        } else if j > i + 1 {
            assert(s[j] == value[j - i - 2]);
        }
    }
    assert(sole_colon_at(s, i));
    let k = choose|k: int| sole_colon_at(s, k);
    assert(k == i);
    assert(s.take(i) =~= name);
    assert(s.skip(i + 1) =~= seq![' '] + value);
    lemma_trim_leading_space(value);
}

} // verus!
