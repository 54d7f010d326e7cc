//! Lexical pieces of the notation: trimming, the label/rest split of a chain
//! line, qualified labels and edge tags.
use vstd::prelude::*;
use crate::arch::{Fish, Vertex};
use crate::parser::ParseError;

verus! {

broadcast use vstd::std_specs::vec::group_vec_axioms, vstd::seq::group_seq_axioms;

/// The characters with the Unicode `White_Space` property.
pub open spec fn is_ws(c: char) -> bool {
    let u = c as u32;
    (0x09 <= u <= 0x0d) || u == 0x20 || u == 0x85 || u == 0xa0 || u == 0x1680 || (0x2000 <= u
        <= 0x200a) || u == 0x2028 || u == 0x2029 || u == 0x202f || u == 0x205f || u == 0x3000
}

pub open spec fn trim_start_spec(s: Seq<char>) -> Seq<char>
    decreases s.len(),
{
    if s.len() > 0 && is_ws(s[0]) {
        trim_start_spec(s.drop_first())
    } else {
        s
    }
}

pub open spec fn trim_end_spec(s: Seq<char>) -> Seq<char>
    decreases s.len(),
{
    if s.len() > 0 && is_ws(s.last()) {
        trim_end_spec(s.drop_last())
    } else {
        s
    }
}

/// `s` without its leading and trailing whitespace.
pub open spec fn trim_spec(s: Seq<char>) -> Seq<char> {
    trim_end_spec(trim_start_spec(s))
}

pub proof fn lemma_trim_start_suffix(s: Seq<char>)
    ensures
        trim_start_spec(s).len() <= s.len(),
        trim_start_spec(s) == s.subrange(s.len() - trim_start_spec(s).len(), s.len() as int),
    decreases s.len(),
{
    if s.len() > 0 && is_ws(s[0]) {
        lemma_trim_start_suffix(s.drop_first());
        assert(s.drop_first().subrange(
            s.drop_first().len() - trim_start_spec(s).len(),
            s.drop_first().len() as int,
        ) =~= s.subrange(s.len() - trim_start_spec(s).len(), s.len() as int));
    } else {
        assert(s.subrange(0, s.len() as int) =~= s);
    }
}

pub proof fn lemma_trim_end_prefix(s: Seq<char>)
    ensures
        trim_end_spec(s).len() <= s.len(),
        trim_end_spec(s) == s.subrange(0, trim_end_spec(s).len() as int),
    decreases s.len(),
{
    if s.len() > 0 && is_ws(s.last()) {
        lemma_trim_end_prefix(s.drop_last());
        assert(s.drop_last().subrange(0, trim_end_spec(s).len() as int) =~= s.subrange(
            0,
            trim_end_spec(s).len() as int,
        ));
    } else {
        assert(s.subrange(0, s.len() as int) =~= s);
    }
}

pub proof fn lemma_trim_len(s: Seq<char>)
    ensures
        trim_spec(s).len() <= s.len(),
{
    lemma_trim_start_suffix(s);
    lemma_trim_end_prefix(trim_start_spec(s));
}

/// Whether `c` has the Unicode `White_Space` property.
pub fn is_whitespace_char(c: char) -> (b: bool)
    ensures
        b == is_ws(c),
{
    let u = c as u32;
    (0x09 <= u && u <= 0x0d) || u == 0x20 || u == 0x85 || u == 0xa0 || u == 0x1680 || (0x2000 <= u
        && u <= 0x200a) || u == 0x2028 || u == 0x2029 || u == 0x202f || u == 0x205f || u == 0x3000
}

proof fn lemma_trim_start_at(s: Seq<char>, a: int)
    requires
        0 <= a <= s.len(),
        forall|k: int| 0 <= k < a ==> is_ws(s[k]),
        a == s.len() || !is_ws(s[a]),
    ensures
        trim_start_spec(s) == s.subrange(a, s.len() as int),
    decreases a,
{
    if a > 0 {
        assert(is_ws(s[0]));
        let t = s.drop_first();
        assert forall|k: int| 0 <= k < a - 1 implies is_ws(t[k]) by {
            assert(t[k] == s[k + 1]);
        }
        if a < s.len() {
            assert(t[a - 1] == s[a]);
        }
        lemma_trim_start_at(t, a - 1);
        assert(t.subrange(a - 1, t.len() as int) =~= s.subrange(a, s.len() as int));
    } else {
        assert(s.subrange(0, s.len() as int) =~= s);
    }
}

proof fn lemma_trim_end_at(s: Seq<char>, b: int)
    requires
        0 <= b <= s.len(),
        forall|k: int| b <= k < s.len() ==> is_ws(s[k]),
        b == 0 || !is_ws(s[b - 1]),
    ensures
        trim_end_spec(s) == s.subrange(0, b),
    decreases s.len() - b,
{
    if b < s.len() {
        assert(is_ws(s.last()));
        let t = s.drop_last();
        assert forall|k: int| b <= k < t.len() implies is_ws(t[k]) by {
            assert(t[k] == s[k]);
        }
        if b > 0 {
            assert(t[b - 1] == s[b - 1]);
        }
        lemma_trim_end_at(t, b);
        assert(t.subrange(0, b) =~= s.subrange(0, b));
    } else {
        assert(s.subrange(0, s.len() as int) =~= s);
    }
}

fn trim_start_str<'a>(s: &'a str) -> (r: &'a str)
    ensures
        r@ == trim_start_spec(s@),
{
    let n = s.unicode_len();
    let mut a: usize = 0;
    while a < n && is_whitespace_char(s.get_char(a))
        invariant
            n == s@.len(),
            a <= n,
            forall|k: int| 0 <= k < a ==> is_ws(s@[k]),
        decreases n - a,
    {
        a += 1;
    }
    proof {
        lemma_trim_start_at(s@, a as int);
    }
    s.substring_char(a, n)
}

fn trim_str<'a>(s: &'a str) -> (r: &'a str)
    ensures
        r@ == trim_spec(s@),
{
    let t = trim_start_str(s);
    let n = t.unicode_len();
    let mut b: usize = n;
    while b > 0 && is_whitespace_char(t.get_char(b - 1))
        invariant
            n == t@.len(),
            b <= n,
            forall|k: int| b <= k < n ==> is_ws(t@[k]),
        decreases b,
    {
        b -= 1;
    }
    proof {
        lemma_trim_end_at(t@, b as int);
    }
    t.substring_char(0, b)
}

/// A trimmed copy of `s`.
pub fn trimmed(s: &str) -> (r: String)
    ensures
        r@ == trim_spec(s@),
{
    String::from_str(trim_str(s))
}

/// A copy of `s` without its leading whitespace.
pub fn trimmed_start(s: &str) -> (r: String)
    ensures
        r@ == trim_start_spec(s@),
{
    String::from_str(trim_start_str(s))
}

/// The number of `' '` characters that `s` starts with.
pub open spec fn leading_spaces(s: Seq<char>) -> nat
    decreases s.len(),
{
    if s.len() > 0 && s[0] == ' ' {
        1 + leading_spaces(s.drop_first())
    } else {
        0
    }
}

pub proof fn lemma_leading_spaces(s: Seq<char>, i: int)
    requires
        0 <= i <= s.len(),
        forall|k: int| 0 <= k < i ==> s[k] == ' ',
    ensures
        leading_spaces(s) == i + leading_spaces(s.subrange(i, s.len() as int)),
    decreases i,
{
    if i > 0 {
        lemma_leading_spaces(s.drop_first(), i - 1);
        assert(s.drop_first().subrange(i - 1, s.drop_first().len() as int) =~= s.subrange(
            i,
            s.len() as int,
        ));
    } else {
        assert(s.subrange(0, s.len() as int) =~= s);
    }
}

/// Counts the spaces at the start of a line.
pub fn count_leading_spaces(s: &str) -> (r: usize)
    ensures
        r as nat == leading_spaces(s@),
        r <= s@.len(),
{
    let n = s.unicode_len();
    let mut i: usize = 0;
    while i < n && s.get_char(i) == ' '
        invariant
            n == s@.len(),
            i <= n,
            forall|k: int| 0 <= k < i ==> s@[k] == ' ',
        decreases n - i,
    {
        i += 1;
    }
    proof {
        lemma_leading_spaces(s@, i as int);
        let rest = s@.subrange(i as int, s@.len() as int);
        if rest.len() > 0 {
            assert(rest[0] == s@[i as int]);
        }
    }
    i
}

/// Whether `s` begins with `p`.
pub open spec fn starts_with(s: Seq<char>, p: Seq<char>) -> bool {
    p.len() <= s.len() && s.subrange(0, p.len() as int) == p
}

pub fn has_prefix(s: &str, p: &str) -> (b: bool)
    ensures
        b == starts_with(s@, p@),
{
    let n = s.unicode_len();
    let m = p.unicode_len();
    if m > n {
        return false;
    }
    let mut i: usize = 0;
    while i < m
        invariant
            n == s@.len(),
            m == p@.len(),
            m <= n,
            i <= m,
            forall|k: int| 0 <= k < i ==> s@[k] == p@[k],
        decreases m - i,
    {
        if s.get_char(i) != p.get_char(i) {
            assert(s@.subrange(0, m as int)[i as int] != p@[i as int]);
            return false;
        }
        i += 1;
    }
    assert(s@.subrange(0, m as int) =~= p@);
    true
}

/// The first `)` at or after `k`, unless a newline comes before it.
pub open spec fn close_from(s: Seq<char>, k: int) -> Option<int>
    decreases s.len() - k,
{
    if k < 0 || k >= s.len() {
        None
    } else if s[k] == ')' {
        Some(k)
    } else if s[k] == '\n' {
        None
    } else {
        close_from(s, k + 1)
    }
}

/// The leftmost escaped label `$( ... )` at or after `i`: the positions of
/// its `$` and of its closing `)`.
pub open spec fn escape_from(s: Seq<char>, i: int) -> Option<(int, int)>
    decreases s.len() - i,
{
    if i < 0 || i + 1 >= s.len() {
        None
    } else if s[i] == '$' && s[i + 1] == '(' && close_from(s, i + 2) is Some {
        Some((i, close_from(s, i + 2)->0))
    } else {
        escape_from(s, i + 1)
    }
}

proof fn lemma_close_bounds(s: Seq<char>, k: int)
    requires
        close_from(s, k) is Some,
    ensures
        k <= close_from(s, k)->0 < s.len(),
    decreases s.len() - k,
{
    if 0 <= k < s.len() && s[k] != ')' && s[k] != '\n' {
        lemma_close_bounds(s, k + 1);
    }
}

proof fn lemma_escape_bounds(s: Seq<char>, i: int)
    requires
        escape_from(s, i) is Some,
    ensures
        ({
            let (a, b) = escape_from(s, i)->0;
            i <= a && a + 2 <= b < s.len()
        }),
    decreases s.len() - i,
{
    if 0 <= i && i + 1 < s.len() {
        if s[i] == '$' && s[i + 1] == '(' && close_from(s, i + 2) is Some {
            lemma_close_bounds(s, i + 2);
        } else {
            lemma_escape_bounds(s, i + 1);
        }
    }
}

/// Relies on `regex::Regex::find` with the pattern `\$\(.*?\)`: the leftmost
/// match, in which `.` takes any character but a newline and `*?` takes as
/// few as it can. Hands back the matched text and the text after it.
#[verifier::external_body]
fn find_escape(s: &str) -> (r: Option<(String, String)>)
    ensures
        match escape_from(s@, 0) {
            None => r is None,
            Some((i, j)) => match r {
                Some((m, rest)) => m@ == s@.subrange(i, j + 1) && rest@ == s@.subrange(
                    j + 1,
                    s@.len() as int,
                ),
                None => false,
            },
        },
{
    let re = regex::Regex::new("\\$\\(.*?\\)").unwrap();
    match re.find(s) {
        Some(m) => Some((m.as_str().to_string(), s[m.end()..].to_string())),
        None => None,
    }
}

/// The first `><` at or after `k`.
pub open spec fn pair_from(s: Seq<char>, k: int) -> Option<int>
    decreases s.len() - k,
{
    if k < 0 || k + 1 >= s.len() {
        None
    } else if s[k] == '>' && s[k + 1] == '<' {
        Some(k)
    } else {
        pair_from(s, k + 1)
    }
}

/// The first `c` at or after `k`.
pub open spec fn char_from(s: Seq<char>, c: char, k: int) -> Option<int>
    decreases s.len() - k,
{
    if k < 0 || k >= s.len() {
        None
    } else if s[k] == c {
        Some(k)
    } else {
        char_from(s, c, k + 1)
    }
}

fn find_pair(s: &str) -> (r: Option<usize>)
    ensures
        match pair_from(s@, 0) {
            None => r is None,
            Some(k) => r == Some(k as usize) && 0 <= k && k + 1 < s@.len(),
        },
{
    let n = s.unicode_len();
    let mut k: usize = 0;
    while n > 0 && k < n - 1
        invariant
            n == s@.len(),
            pair_from(s@, 0) == pair_from(s@, k as int),
        decreases n - k,
    {
        if s.get_char(k) == '>' && s.get_char(k + 1) == '<' {
            return Some(k);
        }
        k += 1;
    }
    None
}

pub(crate) fn find_char(s: &str, c: char, from: usize) -> (r: Option<usize>)
    ensures
        match char_from(s@, c, from as int) {
            None => r is None,
            Some(k) => r == Some(k as usize) && from <= k < s@.len(),
        },
{
    let n = s.unicode_len();
    let mut k: usize = from;
    while k < n
        invariant
            n == s@.len(),
            from <= k,
            char_from(s@, c, from as int) == char_from(s@, c, k as int),
        decreases n - k,
    {
        if s.get_char(k) == c {
            return Some(k);
        }
        k += 1;
    }
    None
}

/// A chain line split into its leading label and the rest: an escaped label
/// `$( ... )` comes first, then a split before the first `><`, else the whole
/// line is the label.
pub open spec fn split_spec(s: Seq<char>) -> (Seq<char>, Seq<char>) {
    match escape_from(s, 0) {
        Some((i, j)) => (trim_spec(s.subrange(i + 2, j)), trim_spec(s.subrange(j + 1, s.len() as int))),
        None => match pair_from(s, 0) {
            Some(k) => (trim_spec(s.subrange(0, k)), trim_spec(s.subrange(k, s.len() as int))),
            None => (trim_spec(s), Seq::<char>::empty()),
        },
    }
}

/// Splits a chain line into its leading label and the rest.
pub fn split_vertex_and_fish(s: &str) -> (r: (String, String))
    ensures
        (r.0@, r.1@) == split_spec(s@),
        r.1@.len() <= s@.len(),
{
    match find_escape(s) {
        Some((m, rest)) => {
            proof {
                lemma_escape_bounds(s@, 0);
            }
            let ghost (i, j) = escape_from(s@, 0)->0;
            let ml = m.as_str().unicode_len();
            let inner = m.as_str().substring_char(2, ml - 1);
            assert(inner@ =~= s@.subrange(i + 2, j));
            let label = trimmed(inner);
            let after = trimmed(rest.as_str());
            proof {
                lemma_trim_len(rest@);
            }
            (label, after)
        },
        None => match find_pair(s) {
            Some(k) => {
                let n = s.unicode_len();
                let label = trimmed(s.substring_char(0, k));
                let after = trimmed(s.substring_char(k, n));
                proof {
                    lemma_trim_len(s@.subrange(k as int, n as int));
                }
                (label, after)
            },
            None => (trimmed(s), String::new()),
        },
    }
}

/// The pieces of `s` between occurrences of `::`, scanning from `k` with the
/// current piece starting at `start`.
pub open spec fn split_from(s: Seq<char>, start: int, k: int) -> Seq<Seq<char>>
    decreases s.len() - k,
{
    if k + 1 >= s.len() {
        seq![s.subrange(start, s.len() as int)]
    } else if s[k] == ':' && s[k + 1] == ':' {
        seq![s.subrange(start, k)] + split_from(s, k + 2, k + 2)
    } else {
        split_from(s, start, k + 1)
    }
}

/// The qualified label written in `s`: its `::`-separated segments, trimmed.
pub open spec fn vertex_spec(s: Seq<char>) -> Seq<Seq<char>> {
    split_from(s, 0, 0).map_values(|p: Seq<char>| trim_spec(p))
}

/// Parses a `::`-separated label.
pub fn parse_vertex(s: &str) -> (r: Vertex)
    ensures
        r@ == vertex_spec(s@),
        r@.len() >= 1,
{
    let n = s.unicode_len();
    let mut parts: Vec<String> = Vec::new();
    let ghost mut raw: Seq<Seq<char>> = seq![];
    let mut start: usize = 0;
    let mut k: usize = 0;
    while n > 0 && k < n - 1
        invariant
            n == s@.len(),
            start <= k <= n,
            raw + split_from(s@, start as int, k as int) == split_from(s@, 0, 0),
            parts@.len() == raw.len(),
            forall|m: int| 0 <= m < raw.len() ==> (#[trigger] parts@[m])@ == trim_spec(raw[m]),
        decreases n - k,
    {
        if s.get_char(k) == ':' && s.get_char(k + 1) == ':' {
            let piece = trimmed(s.substring_char(start, k));
            proof {
                let tail = split_from(s@, (k + 2) as int, (k + 2) as int);
                assert(raw + split_from(s@, start as int, k as int) =~= raw.push(
                    s@.subrange(start as int, k as int),
                ) + tail);
                raw = raw.push(s@.subrange(start as int, k as int));
            }
            parts.push(piece);
            k = k + 2;
            start = k;
        } else {
            k += 1;
        }
    }
    let piece = trimmed(s.substring_char(start, n));
    proof {
        assert(raw + split_from(s@, start as int, k as int) =~= raw.push(
            s@.subrange(start as int, n as int),
        ));
        raw = raw.push(s@.subrange(start as int, n as int));
    }
    parts.push(piece);
    let r = Vertex(parts);
    assert(raw =~= split_from(s@, 0, 0));
    assert(r@ =~= vertex_spec(s@));
    r
}

/// An edge tag at the start of `s`: the tag between `><` and the next `>`,
/// trimmed, and the trimmed text after it; none where either marker is missing.
pub open spec fn fish_spec(s: Seq<char>) -> Option<(Seq<char>, Seq<char>)> {
    let t = trim_spec(s);
    if t.len() >= 2 && t[0] == '>' && t[1] == '<' {
        match char_from(t, '>', 2) {
            Some(e) => Some((trim_spec(t.subrange(2, e)), trim_spec(t.subrange(e + 1, t.len() as int)))),
            None => None,
        }
    } else {
        None
    }
}

/// Parses an edge tag `><tag>` and returns it with the text that follows.
pub fn parse_fish(s: &str) -> (r: Result<(Fish, String), ParseError>)
    ensures
        match fish_spec(s@) {
            Some((f, rest)) => match r {
                Ok((fish, after)) => fish@ == f && after@ == rest && rest.len() < s@.len(),
                Err(_) => false,
            },
            None => r is Err && r->Err_0 is InvalidSyntax,
        },
{
    let t = trim_str(s);
    proof {
        lemma_trim_len(s@);
    }
    let n = t.unicode_len();
    if !(n >= 2 && t.get_char(0) == '>' && t.get_char(1) == '<') {
        return Err(ParseError::InvalidSyntax(String::from_str("Fish operator should start with '><'")));
    }
    match find_char(t, '>', 2) {
        Some(e) => {
            let f = trimmed(t.substring_char(2, e));
            let rest = trimmed(t.substring_char(e + 1, n));
            proof {
                lemma_trim_len(t@.subrange(e + 1, n as int));
            }
            Ok((Fish(f), rest))
        },
        None => Err(ParseError::InvalidSyntax(String::from_str("Fish operator missing closing '>'"))),
    }
}

proof fn lemma_pair_bounds(s: Seq<char>, k: int)
    requires
        pair_from(s, k) is Some,
    ensures
        k <= pair_from(s, k)->0 && pair_from(s, k)->0 + 1 < s.len(),
    decreases s.len() - k,
{
    if 0 <= k && k + 1 < s.len() && !(s[k] == '>' && s[k + 1] == '<') {
        lemma_pair_bounds(s, k + 1);
    }
}

proof fn lemma_char_bounds(s: Seq<char>, c: char, k: int)
    requires
        char_from(s, c, k) is Some,
    ensures
        k <= char_from(s, c, k)->0 < s.len(),
    decreases s.len() - k,
{
    if 0 <= k < s.len() && s[k] != c {
        lemma_char_bounds(s, c, k + 1);
    }
}

/// What follows the label is no longer than the line.
pub proof fn lemma_split_len(s: Seq<char>)
    ensures
        split_spec(s).1.len() <= s.len(),
{
    match escape_from(s, 0) {
        Some((i, j)) => {
            lemma_escape_bounds(s, 0);
            lemma_trim_len(s.subrange(j + 1, s.len() as int));
        },
        None => match pair_from(s, 0) {
            Some(k) => {
                lemma_pair_bounds(s, 0);
                lemma_trim_len(s.subrange(k, s.len() as int));
            },
            None => {},
        },
    }
}

/// What follows a tag is shorter than the text the tag starts.
pub proof fn lemma_fish_len(s: Seq<char>)
    requires
        fish_spec(s) is Some,
    ensures
        match fish_spec(s) {
            Some((_, rest)) => rest.len() < s.len(),
            None => false,
        },
{
    let t = trim_spec(s);
    lemma_trim_len(s);
    lemma_char_bounds(t, '>', 2);
    let e = char_from(t, '>', 2)->0;
    lemma_trim_len(t.subrange(e + 1, t.len() as int));
}

} // verus!
