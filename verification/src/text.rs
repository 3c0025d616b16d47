//! Text helpers: characters of a string, trimming, decimal numbers.

use vstd::prelude::*;

verus! {

/// Whether `c` has the Unicode `White_Space` property, which
/// `char::is_whitespace` reports: tab to carriage return, space, next line,
/// no-break space, Ogham space mark, the spaces U+2000 to U+200A, line and
/// paragraph separators, narrow no-break space, medium mathematical space and
/// ideographic space.
pub open spec fn is_white_space(c: char) -> bool {
    let u = c as u32;
    (0x09 <= u <= 0x0D) || u == 0x20 || u == 0x85 || u == 0xA0 || u == 0x1680 || (0x2000 <= u
        <= 0x200A) || u == 0x2028 || u == 0x2029 || u == 0x202F || u == 0x205F || u == 0x3000
}

/// Whether `c` is in the Unicode general category `Cc` (control codes),
/// which `char::is_control` reports: U+0000 to U+001F and U+007F to U+009F.
pub open spec fn is_control_char(c: char) -> bool {
    let u = c as u32;
    u <= 0x1F || (0x7F <= u <= 0x9F)
}

/// The lowercase mapping of `s`, as `str::to_lowercase` computes it.
pub uninterp spec fn lowercase(s: Seq<char>) -> Seq<char>;

/// Whether `c` is white space, as `char::is_whitespace` answers.
pub fn char_is_whitespace(c: char) -> (r: bool)
    ensures
        r == is_white_space(c),
{
    let u = c as u32;
    (0x09 <= u && u <= 0x0D) || u == 0x20 || u == 0x85 || u == 0xA0 || u == 0x1680 || (0x2000 <= u
        && u <= 0x200A) || u == 0x2028 || u == 0x2029 || u == 0x202F || u == 0x205F || u == 0x3000
}

/// Whether `c` is a control code, as `char::is_control` answers.
pub fn char_is_control(c: char) -> (r: bool)
    ensures
        r == is_control_char(c),
{
    let u = c as u32;
    u <= 0x1F || (0x7F <= u && u <= 0x9F)
}

/// `str::to_lowercase`: the result is the lowercase mapping of `s`.
#[verifier::external_body]
pub(crate) fn str_to_lowercase(s: &str) -> (r: String)
    ensures
        r@ == lowercase(s@),
{
    s.to_lowercase()
}

/// `String::push`: appends `c` at the end.
#[verifier::external_body]
pub(crate) fn push_char(s: &mut String, c: char)
    ensures
        final(s)@ == old(s)@.push(c),
{
    s.push(c)
}

/// The characters of `s`, in order.
pub fn chars_of(s: &str) -> (cs: Vec<char>)
    ensures
        cs@ == s@,
{
    let n = s.unicode_len();
    let mut cs: Vec<char> = Vec::new();
    for i in 0..n
        invariant
            n == s@.len(),
            cs@ == s@.take(i as int),
    {
        cs.push(s.get_char(i));
        assert(cs@ =~= s@.take(i + 1));
    }
    assert(s@.take(n as int) =~= s@);
    cs
}

/// A string holding the characters `cs[from..to]`.
pub fn string_from_chars(cs: &Vec<char>, from: usize, to: usize) -> (s: String)
    requires
        from <= to <= cs@.len(),
    ensures
        s@ == cs@.subrange(from as int, to as int),
{
    let mut s = String::new();
    for i in from..to
        invariant
            to <= cs@.len(),
            s@ == cs@.subrange(from as int, i as int),
    {
        push_char(&mut s, cs[i]);
        assert(s@ =~= cs@.subrange(from as int, i + 1));
    }
    s
}

// ---------------------------------------------------------------------------
// Trimming

/// `s` without its leading characters that satisfy `p`.
pub open spec fn trim_start_where(s: Seq<char>, p: spec_fn(char) -> bool) -> Seq<char>
    decreases s.len(),
{
    if s.len() > 0 && p(s[0]) {
        trim_start_where(s.drop_first(), p)
    } else {
        s
    }
}

/// `s` without its trailing characters that satisfy `p`.
pub open spec fn trim_end_where(s: Seq<char>, p: spec_fn(char) -> bool) -> Seq<char>
    decreases s.len(),
{
    if s.len() > 0 && p(s.last()) {
        trim_end_where(s.drop_last(), p)
    } else {
        s
    }
}

/// `s` without leading and trailing characters that satisfy `p`.
pub open spec fn trim_where(s: Seq<char>, p: spec_fn(char) -> bool) -> Seq<char> {
    trim_end_where(trim_start_where(s, p), p)
}

/// What `str::trim` leaves: no leading or trailing white space.
pub open spec fn trim_spaces(s: Seq<char>) -> Seq<char> {
    trim_where(s, |c: char| is_white_space(c))
}

/// What `str::trim_matches('.')` leaves: no leading or trailing dots.
pub open spec fn trim_dots(s: Seq<char>) -> Seq<char> {
    trim_where(s, |c: char| c == '.')
}

proof fn lemma_trim_start_at(s: Seq<char>, p: spec_fn(char) -> bool, i: int)
    requires
        0 <= i <= s.len(),
        forall|k: int| 0 <= k < i ==> p(#[trigger] s[k]),
        i == s.len() || !p(s[i]),
    ensures
        trim_start_where(s, p) == s.skip(i),
    decreases s.len(),
{
    if s.len() > 0 && p(s[0]) {
        assert(i > 0);
        assert forall|k: int| 0 <= k < i - 1 implies p(#[trigger] s.drop_first()[k]) by {
            assert(s.drop_first()[k] == s[k + 1]);
        }
        lemma_trim_start_at(s.drop_first(), p, i - 1);
        assert(s.drop_first().skip(i - 1) =~= s.skip(i));
    } else {
        assert(i == 0);
        assert(s.skip(0) =~= s);
    }
}

proof fn lemma_trim_end_at(s: Seq<char>, p: spec_fn(char) -> bool, j: int)
    requires
        0 <= j <= s.len(),
        forall|k: int| j <= k < s.len() ==> p(#[trigger] s[k]),
        j == 0 || !p(s[j - 1]),
    ensures
        trim_end_where(s, p) == s.take(j),
    decreases s.len(),
{
    if s.len() > 0 && p(s.last()) {
        assert(j < s.len());
        assert forall|k: int| j <= k < s.len() - 1 implies p(#[trigger] s.drop_last()[k]) by {
            assert(s.drop_last()[k] == s[k]);
        }
        lemma_trim_end_at(s.drop_last(), p, j);
        assert(s.drop_last().take(j) =~= s.take(j));
    } else {
        assert(j == s.len());
        assert(s.take(j) =~= s);
    }
}

/// A trimmed sequence starts and ends with characters that do not satisfy `p`.
pub proof fn lemma_trim_ends(s: Seq<char>, p: spec_fn(char) -> bool)
    ensures
        trim_where(s, p).len() > 0 ==> !p(trim_where(s, p)[0]) && !p(trim_where(s, p).last()),
        trim_where(s, p).len() <= s.len(),
        forall|i: int| 0 <= i < trim_where(s, p).len() ==> exists|k: int| 0 <= k < s.len() && #[trigger] trim_where(s, p)[i] == s[k],
{
    lemma_trim_start_shape(s, p);
    let t = trim_start_where(s, p);
    lemma_trim_end_shape(t, p);
    let u = trim_end_where(t, p);
    if u.len() > 0 {
        assert(u[0] == t[0]);
    }
}

proof fn lemma_trim_start_shape(s: Seq<char>, p: spec_fn(char) -> bool)
    ensures
        trim_start_where(s, p).len() > 0 ==> !p(trim_start_where(s, p)[0]),
        exists|i: int| 0 <= i <= s.len() && trim_start_where(s, p) == s.skip(i),
    decreases s.len(),
{
    if s.len() > 0 && p(s[0]) {
        lemma_trim_start_shape(s.drop_first(), p);
        let i = choose|i: int| 0 <= i <= s.drop_first().len() && trim_start_where(s.drop_first(), p) == s.drop_first().skip(i);
        assert(s.drop_first().skip(i) =~= s.skip(i + 1));
    } else {
        assert(s.skip(0) =~= s);
    }
}

proof fn lemma_trim_end_shape(s: Seq<char>, p: spec_fn(char) -> bool)
    ensures
        trim_end_where(s, p).len() > 0 ==> !p(trim_end_where(s, p).last()),
        exists|j: int| 0 <= j <= s.len() && trim_end_where(s, p) == s.take(j),
    decreases s.len(),
{
    if s.len() > 0 && p(s.last()) {
        lemma_trim_end_shape(s.drop_last(), p);
        let j = choose|j: int| 0 <= j <= s.drop_last().len() && trim_end_where(s.drop_last(), p) == s.drop_last().take(j);
        assert(s.drop_last().take(j) =~= s.take(j));
    } else {
        assert(s.take(s.len() as int) =~= s);
    }
}

/// `t` is `s` without its leading and trailing characters that satisfy `p`:
/// a contiguous middle part of `s`, everything around it satisfies `p`, and
/// (when not empty) it starts and ends with characters that do not.
pub open spec fn is_trim_of(t: Seq<char>, s: Seq<char>, p: spec_fn(char) -> bool) -> bool {
    exists|i: int, j: int|
        0 <= i <= j <= s.len() && t == s.subrange(i, j) && (forall|k: int| 0 <= k < i ==> p(#[trigger] s[k]))
            && (forall|k: int| j <= k < s.len() ==> p(#[trigger] s[k])) && (i < j ==> !p(s[i]) && !p(
            s[j - 1],
        ))
}

proof fn lemma_trim_start_facts(s: Seq<char>, p: spec_fn(char) -> bool) -> (i: int)
    ensures
        0 <= i <= s.len(),
        trim_start_where(s, p) == s.skip(i),
        forall|k: int| 0 <= k < i ==> p(#[trigger] s[k]),
        i < s.len() ==> !p(s[i]),
    decreases s.len(),
{
    if s.len() > 0 && p(s[0]) {
        let i0 = lemma_trim_start_facts(s.drop_first(), p);
        assert(s.drop_first().skip(i0) =~= s.skip(i0 + 1));
        assert forall|k: int| 0 <= k < i0 + 1 implies p(#[trigger] s[k]) by {
            if k > 0 {
                assert(s[k] == s.drop_first()[k - 1]);
            }
        }
        i0 + 1
    } else {
        assert(s.skip(0) =~= s);
        0
    }
}

proof fn lemma_trim_end_facts(s: Seq<char>, p: spec_fn(char) -> bool) -> (j: int)
    ensures
        0 <= j <= s.len(),
        trim_end_where(s, p) == s.take(j),
        forall|k: int| j <= k < s.len() ==> p(#[trigger] s[k]),
        j > 0 ==> !p(s[j - 1]),
    decreases s.len(),
{
    if s.len() > 0 && p(s.last()) {
        let j0 = lemma_trim_end_facts(s.drop_last(), p);
        assert(s.drop_last().take(j0) =~= s.take(j0));
        assert forall|k: int| j0 <= k < s.len() implies p(#[trigger] s[k]) by {
            if k < s.len() - 1 {
                assert(s[k] == s.drop_last()[k]);
            }
        }
        j0
    } else {
        assert(s.take(s.len() as int) =~= s);
        s.len() as int
    }
}

/// `trim_where` removes exactly the leading and trailing characters that
/// satisfy `p`.
pub proof fn lemma_trim_where_is_trim(s: Seq<char>, p: spec_fn(char) -> bool)
    ensures
        is_trim_of(trim_where(s, p), s, p),
        trim_where(s, p).len() == 0 <==> forall|k: int| 0 <= k < s.len() ==> p(#[trigger] s[k]),
{
    let i = lemma_trim_start_facts(s, p);
    let u = s.skip(i);
    let j0 = lemma_trim_end_facts(u, p);
    let j = i + j0;
    assert(u.take(j0) =~= s.subrange(i, j));
    assert forall|k: int| j <= k < s.len() implies p(#[trigger] s[k]) by {
        assert(s[k] == u[k - i]);
    }
    if i < j {
        assert(s[j - 1] == u[j0 - 1]);
    }
    if trim_where(s, p).len() == 0 {
        assert(i == j);
    } else {
        assert(!p(s[i]));
    }
}

/// The predicate a trim removes: dots, or white space.
pub open spec fn trimmed_char(c: char, dots: bool) -> bool {
    if dots {
        c == '.'
    } else {
        is_white_space(c)
    }
}

fn is_trimmed_char(c: char, dots: bool) -> (r: bool)
    ensures
        r == trimmed_char(c, dots),
{
    if dots {
        c == '.'
    } else {
        char_is_whitespace(c)
    }
}

/// `cs` without leading and trailing dots (`dots`) or white space.
pub fn trim_chars(cs: &Vec<char>, dots: bool) -> (t: Vec<char>)
    ensures
        t@ == trim_where(cs@, |c: char| trimmed_char(c, dots)),
{
    let ghost p = |c: char| trimmed_char(c, dots);
    let n = cs.len();
    let mut i: usize = 0;
    while i < n && is_trimmed_char(cs[i], dots)
        invariant
            i <= n,
            n == cs@.len(),
            p == (|c: char| trimmed_char(c, dots)),
            forall|k: int| 0 <= k < i ==> p(#[trigger] cs@[k]),
        decreases n - i,
    {
        i = i + 1;
    }
    proof {
        lemma_trim_start_at(cs@, p, i as int);
    }
    let ghost rest = cs@.skip(i as int);
    let mut j: usize = n;
    while j > i && is_trimmed_char(cs[j - 1], dots)
        invariant
            i <= j <= n,
            n == cs@.len(),
            p == (|c: char| trimmed_char(c, dots)),
            forall|k: int| j <= k < n ==> p(#[trigger] cs@[k]),
        decreases j,
    {
        j = j - 1;
    }
    proof {
        assert forall|k: int| j - i <= k < rest.len() implies p(#[trigger] rest[k]) by {
            assert(rest[k] == cs@[k + i]);
        }
        if j > i {
            assert(rest[j - i - 1] == cs@[j - 1]);
        }
        lemma_trim_end_at(rest, p, j - i);
        assert(rest.take(j - i) =~= cs@.subrange(i as int, j as int));
    }
    let mut t: Vec<char> = Vec::new();
    for k in i..j
        invariant
            i <= j <= n,
            n == cs@.len(),
            t@ == cs@.subrange(i as int, k as int),
    {
        t.push(cs[k]);
        assert(t@ =~= cs@.subrange(i as int, k + 1));
    }
    assert(trim_where(cs@, p) == trim_where(cs@, |c: char| trimmed_char(c, dots)));
    t
}

/// `s` without leading and trailing white space, as `str::trim` leaves it.
pub fn trim(s: &str) -> (t: String)
    ensures
        t@ == trim_spaces(s@),
{
    let cs = chars_of(s);
    let t = trim_chars(&cs, false);
    proof {
        assert((|c: char| trimmed_char(c, false)) =~= (|c: char| is_white_space(c)));
    }
    string_from_chars(&t, 0, t.len())
}

// ---------------------------------------------------------------------------
// Decimal numbers

/// The character of decimal digit `d`.
pub open spec fn digit_char(d: int) -> char {
    (48 + d) as char
}

/// The decimal representation of `n`, without leading zeros.
pub open spec fn decimal(n: nat) -> Seq<char>
    decreases n,
{
    if n < 10 {
        seq![digit_char(n as int)]
    } else {
        decimal(n / 10).push(digit_char((n % 10) as int))
    }
}

fn digit(d: u64) -> (c: char)
    requires
        d < 10,
    ensures
        c == digit_char(d as int),
{
    ((48 + d) as u8) as char
}

/// Appends the decimal representation of `n`, as `to_string` writes it.
pub fn push_decimal(s: &mut String, n: u64)
    ensures
        final(s)@ == old(s)@ + decimal(n as nat),
    decreases n,
{
    if n >= 10 {
        push_decimal(s, n / 10);
    }
    push_char(s, digit(n % 10));
    proof {
        if n >= 10 {
            assert(old(s)@ + decimal(n as nat) =~= old(s)@ + decimal((n / 10) as nat) + seq![digit_char((n % 10) as int)]);
        } else {
            assert(old(s)@ + decimal(n as nat) =~= old(s)@.push(digit_char(n as int)));
        }
    }
}

} // verus!
