use regex::Regex;
use vstd::prelude::*;

verus! {

/// `String::push` appends one character to the end of the string.
pub assume_specification[ String::push ](s: &mut String, c: char)
    ensures
        final(s)@ == old(s)@.push(c),
;

/// The characters of `s`, in order.
pub fn chars_of(s: &str) -> (v: Vec<char>)
    ensures
        v@ == s@,
{
    let mut v: Vec<char> = Vec::new();
    let it = s.chars();
    for c in iter: it
        invariant
            iter.seq() == s@,
            v@ == s@.take(iter.index()),
    {
        v.push(c);
        assert(s@.take(iter.index() + 1) == s@.take(iter.index()).push(s@[iter.index()]));
    }
    assert(s@.take(s@.len() as int) == s@);
    v
}

/// What one character becomes inside a quoted SQL literal: a backslash and a
/// quote are doubled, a line feed becomes a blank, a carriage return becomes
/// the two characters `\r`, and every other character stands for itself.
pub open spec fn escaped_char(c: char) -> Seq<char> {
    if c == '\\' {
        seq!['\\', '\\']
    } else if c == '\'' {
        seq!['\'', '\'']
    } else if c == '\n' {
        seq![' ']
    } else if c == '\r' {
        seq!['\\', 'r']
    } else {
        seq![c]
    }
}

/// The escaped form of a text: the escaped forms of its characters, in order.
pub open spec fn escaped(s: Seq<char>) -> Seq<char>
    decreases s.len(),
{
    if s.len() == 0 {
        Seq::empty()
    } else {
        escaped(s.drop_last()) + escaped_char(s.last())
    }
}

/// Makes a text safe to stand between the quotes of a SQL string literal.
pub fn escape_sql_string(input: &str) -> (out: String)
    ensures
        out@ == escaped(input@),
{
    let chars = chars_of(input);
    let mut out = String::new();
    let mut i: usize = 0;
    while i < chars.len()
        invariant
            i <= chars.len(),
            chars@ == input@,
            out@ == escaped(chars@.take(i as int)),
        decreases chars.len() - i,
    {
        let c = chars[i];
        proof {
            assert(chars@.take(i + 1).drop_last() == chars@.take(i as int));
            assert(chars@.take(i + 1).last() == c);
        }
        if c == '\\' {
            out.push('\\');
            out.push('\\');
        } else if c == '\'' {
            out.push('\'');
            out.push('\'');
        } else if c == '\n' {
            out.push(' ');
        } else if c == '\r' {
            out.push('\\');
            out.push('r');
        } else {
            out.push(c);
        }
        i += 1;
    }
    assert(chars@.take(chars.len() as int) == chars@);
    out
}

/// Whether `s` can stand between the quotes of a SQL string literal without
/// ending it early: a backslash always has a character after it, a quote is
/// always followed by a second quote, and no raw line break occurs.
pub open spec fn is_literal_body(s: Seq<char>) -> bool
    decreases s.len(),
{
    if s.len() == 0 {
        true
    } else if s[0] == '\\' {
        s.len() >= 2 && is_literal_body(s.skip(2))
    } else if s[0] == '\'' {
        s.len() >= 2 && s[1] == '\'' && is_literal_body(s.skip(2))
    } else if s[0] == '\n' || s[0] == '\r' {
        false
    } else {
        is_literal_body(s.skip(1))
    }
}

proof fn lemma_literal_body_concat(a: Seq<char>, b: Seq<char>)
    requires
        is_literal_body(a),
        is_literal_body(b),
    ensures
        is_literal_body(a + b),
    decreases a.len(),
{
    if a.len() == 0 {
        assert(a + b == b);
    } else if a[0] == '\\' || a[0] == '\'' {
        assert((a + b).skip(2) == a.skip(2) + b);
        lemma_literal_body_concat(a.skip(2), b);
    } else {
        assert((a + b).skip(1) == a.skip(1) + b);
        lemma_literal_body_concat(a.skip(1), b);
    }
}

/// Escaping distributes over concatenation.
pub proof fn lemma_escaped_concat(a: Seq<char>, b: Seq<char>)
    ensures
        escaped(a + b) == escaped(a) + escaped(b),
    decreases b.len(),
{
    if b.len() == 0 {
        assert(a + b == a);
    } else {
        assert((a + b).drop_last() == a + b.drop_last());
        lemma_escaped_concat(a, b.drop_last());
    }
}

/// Literal safety: whatever the input, its escaped form cannot end the SQL
/// literal that holds it, and carries no raw line break.
pub proof fn lemma_escaped_is_literal_body(s: Seq<char>)
    ensures
        is_literal_body(escaped(s)),
    decreases s.len(),
{
    if s.len() > 0 {
        lemma_escaped_is_literal_body(s.drop_last());
        let e = escaped_char(s.last());
        assert(is_literal_body(e)) by {
            reveal_with_fuel(is_literal_body, 2);
            if e.len() == 2 {
                assert(e.skip(2).len() == 0);
            } else {
                assert(e.skip(1).len() == 0);
            }
        }
        lemma_literal_body_concat(escaped(s.drop_last()), e);
    }
}

/// Whether `s` begins with `p`.
pub open spec fn starts_with(s: Seq<char>, p: Seq<char>) -> bool {
    p.len() <= s.len() && s.subrange(0, p.len() as int) == p
}

/// `s` with each occurrence of `marker` replaced by `value`. Occurrences are
/// found from left to right and do not overlap; what was put in is not
/// searched again. An empty marker occurs nowhere.
pub open spec fn substituted(s: Seq<char>, marker: Seq<char>, value: Seq<char>) -> Seq<char>
    decreases s.len(),
{
    if marker.len() == 0 || s.len() == 0 {
        s
    } else if starts_with(s, marker) {
        value + substituted(s.skip(marker.len() as int), marker, value)
    } else {
        seq![s[0]] + substituted(s.skip(1), marker, value)
    }
}

/// How many occurrences of `marker` a substitution in `s` replaces.
pub open spec fn occurrences(s: Seq<char>, marker: Seq<char>) -> nat
    decreases s.len(),
{
    if marker.len() == 0 || s.len() == 0 {
        0
    } else if starts_with(s, marker) {
        1 + occurrences(s.skip(marker.len() as int), marker)
    } else {
        occurrences(s.skip(1), marker)
    }
}

/// A substitution changes the length by the difference between value and
/// marker, once for each occurrence.
pub proof fn lemma_substituted_len(s: Seq<char>, marker: Seq<char>, value: Seq<char>)
    ensures
        substituted(s, marker, value).len() == s.len() + occurrences(s, marker) * (value.len()
            - marker.len()),
    decreases s.len(),
{
    let d = value.len() - marker.len();
    if marker.len() == 0 || s.len() == 0 {
        assert(0 * d == 0) by (nonlinear_arith);
    } else if starts_with(s, marker) {
        let rest = s.skip(marker.len() as int);
        lemma_substituted_len(rest, marker, value);
        let n = occurrences(rest, marker);
        assert((1 + n) * d == d + n * d) by (nonlinear_arith);
    } else {
        lemma_substituted_len(s.skip(1), marker, value);
    }
}

/// Whether `marker` stands in `text` at position `at`.
fn matches_at(text: &Vec<char>, at: usize, marker: &Vec<char>) -> (r: bool)
    requires
        at <= text.len(),
    ensures
        r == starts_with(text@.skip(at as int), marker@),
{
    if marker.len() > text.len() - at {
        return false;
    }
    let mut k: usize = 0;
    while k < marker.len()
        invariant
            at <= text.len(),
            marker.len() <= text.len() - at,
            k <= marker.len(),
            forall|j: int| 0 <= j < k ==> text@[at + j] == marker@[j],
        decreases marker.len() - k,
    {
        if text[at + k] != marker[k] {
            assert(text@.skip(at as int).subrange(0, marker.len() as int)[k as int]
                != marker@[k as int]);
            return false;
        }
        k += 1;
    }
    assert(text@.skip(at as int).subrange(0, marker.len() as int) =~= marker@);
    true
}

/// Replaces each occurrence of `marker` in `text` by `value`.
pub fn substitute(text: &str, marker: &str, value: &str) -> (out: String)
    ensures
        out@ == substituted(text@, marker@, value@),
{
    let t = chars_of(text);
    let m = chars_of(marker);
    if m.len() == 0 {
        return text.to_owned();
    }
    let mut out = String::new();
    let mut i: usize = 0;
    assert(t@.skip(0) == t@);
    assert(out@ + substituted(t@, m@, value@) == substituted(t@, m@, value@));
    while i < t.len()
        invariant
            i <= t.len(),
            m.len() > 0,
            t@ == text@,
            m@ == marker@,
            out@ + substituted(t@.skip(i as int), m@, value@) == substituted(t@, m@, value@),
        decreases t.len() - i,
    {
        let ghost rest = t@.skip(i as int);
        if matches_at(&t, i, &m) {
            let ghost before = out@;
            out.append(value);
            assert(rest.skip(m.len() as int) == t@.skip(i + m.len()));
            i += m.len();
            assert(out@ + substituted(t@.skip(i as int), m@, value@) == before + (value@
                + substituted(t@.skip(i as int), m@, value@)));
        } else {
            let ghost before = out@;
            out.push(t[i]);
            assert(rest.skip(1) == t@.skip(i + 1));
            i += 1;
            assert(out@ + substituted(t@.skip(i as int), m@, value@) == before + (seq![rest[0]]
                + substituted(t@.skip(i as int), m@, value@)));
        }
    }
    assert(t@.skip(t.len() as int).len() == 0);
    assert(out@ + Seq::<char>::empty() == out@);
    out
}

/// The text that `regex::Regex::replace_all` gives for `haystack` and
/// `replacement` on the expression that `regex::Regex::new` compiles from
/// `pattern`, or `None` where `pattern` is not accepted as an expression.
pub uninterp spec fn regex_replaced(
    pattern: Seq<char>,
    haystack: Seq<char>,
    replacement: Seq<char>,
) -> Option<Seq<char>>;

/// Compiles `pattern` with `regex::Regex::new` and, where that succeeds,
/// rewrites `haystack` with `Regex::replace_all`. Nothing is proved of the
/// outcome; it is only given its name.
#[verifier::external_body]
fn regex_replace_all(pattern: &str, haystack: &str, replacement: &str) -> (r: Option<String>)
    ensures
        match r {
            Some(text) => regex_replaced(pattern@, haystack@, replacement@) == Some(text@),
            None => regex_replaced(pattern@, haystack@, replacement@) is None,
        },
{
    match Regex::new(pattern) {
        Ok(re) => Some(re.replace_all(haystack, replacement).into_owned()),
        Err(_) => None,
    }
}

/// `haystack` rewritten by the expression `pattern`, or `haystack` itself
/// where the expression is not accepted.
pub open spec fn rewritten(pattern: Seq<char>, haystack: Seq<char>, replacement: Seq<char>) -> Seq<
    char,
> {
    match regex_replaced(pattern, haystack, replacement) {
        Some(text) => text,
        None => haystack,
    }
}

/// Picks the text to go on with once the rewriting has been tried: the
/// rewritten text, or the input where there is none.
pub fn rewritten_or_input(input: &str, outcome: Option<String>) -> (out: String)
    ensures
        out@ == match outcome {
            Some(text) => text@,
            None => input@,
        },
{
    match outcome {
        Some(text) => text,
        None => input.to_owned(),
    }
}

/// An inline Markdown link `[text](url)`, with the link text captured.
pub open spec fn link_pattern() -> Seq<char> {
    r"\[(?P<text>[^\]]+)\]\((?P<url>[^\)]+)\)"@
}

/// A text without its inline Markdown links: `[text](url)` becomes `text`,
/// so an image `![alt](url)` becomes `!alt`.
pub open spec fn links_removed(input: Seq<char>) -> Seq<char> {
    rewritten(link_pattern(), input, "$text"@)
}

/// Strips inline Markdown links, keeping the link text and dropping the
/// target.
pub fn remove_markdown_links(input: &str) -> (out: String)
    ensures
        out@ == links_removed(input@),
{
    let outcome = regex_replace_all(r"\[(?P<text>[^\]]+)\]\((?P<url>[^\)]+)\)", input, "$text");
    rewritten_or_input(input, outcome)
}

/// A text in which every run of blanks has become a single blank.
pub open spec fn spaces_collapsed(input: Seq<char>) -> Seq<char> {
    rewritten(" +"@, input, " "@)
}

/// Collapses each run of blanks into one blank.
pub fn replace_multiple_spaces(input: &str) -> (out: String)
    ensures
        out@ == spaces_collapsed(input@),
{
    let outcome = regex_replace_all(" +", input, " ");
    rewritten_or_input(input, outcome)
}

/// Whether `char::is_alphanumeric` holds of `c`.
pub uninterp spec fn alphanumeric(c: char) -> bool;

/// Whether `char::is_whitespace` holds of `c`.
pub uninterp spec fn whitespace(c: char) -> bool;

/// `char::is_alphanumeric` is a fixed property of the character.
pub assume_specification[ char::is_alphanumeric ](c: char) -> (r: bool)
    ensures
        r == alphanumeric(c),
;

/// `char::is_whitespace` is a fixed property of the character.
pub assume_specification[ char::is_whitespace ](c: char) -> (r: bool)
    ensures
        r == whitespace(c),
;

/// How many characters of `s` are letters, digits or white space.
pub open spec fn plain_count(s: Seq<char>) -> nat
    decreases s.len(),
{
    if s.len() == 0 {
        0
    } else {
        plain_count(s.drop_last()) + if alphanumeric(s.last()) || whitespace(s.last()) {
            1nat
        } else {
            0nat
        }
    }
}

/// The length of a text with its symbols left out.
pub trait LengthWithoutSymbols {
    /// The characters of the text.
    spec fn text(&self) -> Seq<char>;

    /// Counts the letters, digits and white space of the text.
    fn length_without_symbols(&self) -> (n: usize)
        ensures
            n == plain_count(self.text()),
    ;
}

impl LengthWithoutSymbols for String {
    open spec fn text(&self) -> Seq<char> {
        self@
    }

    fn length_without_symbols(&self) -> (n: usize) {
        let chars = chars_of(self.as_str());
        let mut n: usize = 0;
        let mut i: usize = 0;
        while i < chars.len()
            invariant
                i <= chars.len(),
                n == plain_count(chars@.take(i as int)),
                n <= i,
            decreases chars.len() - i,
        {
            let c = chars[i];
            proof {
                assert(chars@.take(i + 1).drop_last() == chars@.take(i as int));
                assert(chars@.take(i + 1).last() == c);
            }
            if c.is_alphanumeric() || c.is_whitespace() {
                n += 1;
            }
            i += 1;
        }
        assert(chars@.take(chars.len() as int) == chars@);
        n
    }
}

/// How many words `s` holds: maximal runs of characters that are not white
/// space.
pub open spec fn token_count(s: Seq<char>) -> nat
    decreases s.len(),
{
    if s.len() == 0 {
        0
    } else {
        token_count(s.drop_last()) + if !whitespace(s.last()) && (s.len() == 1 || whitespace(
            s[s.len() - 2],
        )) {
            1nat
        } else {
            0nat
        }
    }
}

/// Counts the words of a text.
pub fn count_tokens(text: &str) -> (n: usize)
    ensures
        n == token_count(text@),
{
    let chars = chars_of(text);
    let mut n: usize = 0;
    let mut i: usize = 0;
    let mut in_gap = true;
    while i < chars.len()
        invariant
            i <= chars.len(),
            n == token_count(chars@.take(i as int)),
            n <= i,
            in_gap == (i == 0 || whitespace(chars@[i - 1])),
        decreases chars.len() - i,
    {
        let c = chars[i];
        proof {
            assert(chars@.take(i + 1).drop_last() == chars@.take(i as int));
            assert(chars@.take(i + 1).last() == c);
            if i > 0 {
                assert(chars@.take(i + 1)[i - 1] == chars@[i - 1]);
            }
        }
        let gap = c.is_whitespace();
        if !gap && in_gap {
            n += 1;
        }
        in_gap = gap;
        i += 1;
    }
    assert(chars@.take(chars.len() as int) == chars@);
    n
}

/// The character that writes a digit; `'0'` for what is no digit.
pub open spec fn digit(d: int) -> char {
    if d == 1 {
        '1'
    } else if d == 2 {
        '2'
    } else if d == 3 {
        '3'
    } else if d == 4 {
        '4'
    } else if d == 5 {
        '5'
    } else if d == 6 {
        '6'
    } else if d == 7 {
        '7'
    } else if d == 8 {
        '8'
    } else if d == 9 {
        '9'
    } else {
        '0'
    }
}

/// A number written in base ten, without leading zeros.
pub open spec fn decimal(n: nat) -> Seq<char>
    decreases n,
{
    if n < 10 {
        seq![digit(n as int)]
    } else {
        decimal(n / 10).push(digit((n % 10) as int))
    }
}

fn digit_of(d: usize) -> (c: char)
    requires
        d < 10,
    ensures
        c == digit(d as int),
{
    if d == 1 {
        '1'
    } else if d == 2 {
        '2'
    } else if d == 3 {
        '3'
    } else if d == 4 {
        '4'
    } else if d == 5 {
        '5'
    } else if d == 6 {
        '6'
    } else if d == 7 {
        '7'
    } else if d == 8 {
        '8'
    } else if d == 9 {
        '9'
    } else {
        '0'
    }
}

/// Appends `n`, written in base ten, to `out`.
pub fn push_decimal(out: &mut String, n: usize)
    ensures
        final(out)@ == old(out)@ + decimal(n as nat),
    decreases n,
{
    if n >= 10 {
        push_decimal(out, n / 10);
    }
    out.push(digit_of(n % 10));
}

/// Whether `part` stands somewhere in `s`. An empty part stands everywhere.
pub open spec fn occurs_in(s: Seq<char>, part: Seq<char>) -> bool {
    exists|i: int| 0 <= i <= s.len() && starts_with(#[trigger] s.skip(i), part)
}

/// Whether `part` stands somewhere in `text`.
pub fn contains_text(text: &str, part: &str) -> (r: bool)
    ensures
        r == occurs_in(text@, part@),
{
    let t = chars_of(text);
    let p = chars_of(part);
    let mut i: usize = 0;
    while i <= t.len()
        invariant
            i <= t.len() + 1,
            t@ == text@,
            p@ == part@,
            forall|j: int| 0 <= j < i ==> !starts_with(#[trigger] t@.skip(j), p@),
        decreases t.len() + 1 - i,
    {
        if matches_at(&t, i, &p) {
            return true;
        }
        if i == t.len() {
            return false;
        }
        i += 1;
    }
    false
}

/// Whether two texts are the same.
pub fn same_text(a: &str, b: &str) -> (r: bool)
    ensures
        r == (a@ == b@),
{
    let x = chars_of(a);
    let y = chars_of(b);
    if x.len() != y.len() {
        return false;
    }
    let mut i: usize = 0;
    while i < x.len()
        invariant
            i <= x.len(),
            x.len() == y.len(),
            x@ == a@,
            y@ == b@,
            forall|j: int| 0 <= j < i ==> x@[j] == y@[j],
        decreases x.len() - i,
    {
        if x[i] != y[i] {
            return false;
        }
        i += 1;
    }
    assert(x@ =~= y@);
    true
}

/// A text as `std::fmt::Debug` writes a string: between double quotes, with
/// the characters escaped that the standard library escapes there.
pub uninterp spec fn debug_form(s: Seq<char>) -> Seq<char>;

/// Formats `s` with the standard library's `Debug` for strings. Nothing is
/// proved of the outcome; it is only given its name.
#[verifier::external_body]
pub(crate) fn debug_string(s: &str) -> (out: String)
    ensures
        out@ == debug_form(s@),
{
    format!("{:?}", s)
}

} // verus!
