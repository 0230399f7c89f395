//! Message building over character sequences.
//!
//! Error messages, output names, and status lines are stated as sequences of characters, so every
//! function that composes one can say exactly which text it returns.
use vstd::prelude::*;

verus! {

/// The decimal digit that stands for `d`, for `d < 10`.
pub open spec fn digit(d: nat) -> char {
    (48 + d) as char
}

/// The decimal notation of `n`, without leading zeros.
pub open spec fn decimal(n: nat) -> Seq<char>
    decreases n,
{
    if n < 10 {
        seq![digit(n)]
    } else {
        decimal(n / 10).push(digit(n % 10))
    }
}

/// A number in decimal notation is not empty and holds no separator of path components.
pub proof fn lemma_decimal_has_no_separator(n: nat)
    ensures
        decimal(n).len() > 0,
        forall|i: int| 0 <= i < decimal(n).len() ==> #[trigger] decimal(n)[i] != '/',
    decreases n,
{
    if n >= 10 {
        lemma_decimal_has_no_separator(n / 10);
    }
}

/// `parts` one after another, with `separator` between neighbours.
pub open spec fn joined(parts: Seq<Seq<char>>, separator: Seq<char>) -> Seq<char>
    decreases parts.len(),
{
    if parts.len() == 0 {
        Seq::empty()
    } else if parts.len() == 1 {
        parts[0]
    } else {
        joined(parts.drop_last(), separator) + separator + parts.last()
    }
}

/// A bracketed, comma-separated list of numbers.
pub open spec fn number_list(ids: Seq<u16>) -> Seq<char> {
    "["@ + joined(Seq::new(ids.len(), |i: int| decimal(ids[i] as nat)), ", "@) + "]"@
}

/// `s` between double quotes, with the characters that need it escaped.
pub uninterp spec fn quoted_text(s: Seq<char>) -> Seq<char>;

/// `s` as `std`'s `Debug` for `str` prints it: the contract names that text and claims nothing of
/// its escapes.
#[verifier::external_body]
pub(crate) fn quoted(s: &str) -> (r: String)
    ensures
        r@ == quoted_text(s@),
{
    format!("{:?}", s)
}

/// The path `s` between double quotes, with the characters that need it escaped.
pub uninterp spec fn quoted_path_text(s: Seq<char>) -> Seq<char>;

/// `s` as `std`'s `Debug` for `Path` prints it: the contract names that text and claims nothing of
/// its escapes, which need not be those of a `str`.
#[verifier::external_body]
pub(crate) fn quoted_path(s: &str) -> (r: String)
    ensures
        r@ == quoted_path_text(s@),
{
    format!("{:?}", std::path::Path::new(s))
}

/// The one-character text of a digit.
fn digit_text(d: u64) -> (r: &'static str)
    requires
        d < 10,
    ensures
        r@ == seq![digit(d as nat)],
{
    proof {
        reveal_strlit("0");
        reveal_strlit("1");
        reveal_strlit("2");
        reveal_strlit("3");
        reveal_strlit("4");
        reveal_strlit("5");
        reveal_strlit("6");
        reveal_strlit("7");
        reveal_strlit("8");
        reveal_strlit("9");
    }
    if d == 0 {
        "0"
    } else if d == 1 {
        "1"
    } else if d == 2 {
        "2"
    } else if d == 3 {
        "3"
    } else if d == 4 {
        "4"
    } else if d == 5 {
        "5"
    } else if d == 6 {
        "6"
    } else if d == 7 {
        "7"
    } else if d == 8 {
        "8"
    } else {
        "9"
    }
}

/// Append the decimal notation of `n`.
pub fn push_decimal(out: &mut String, n: u64)
    ensures
        final(out)@ == old(out)@ + decimal(n as nat),
    decreases n,
{
    if n >= 10 {
        push_decimal(out, n / 10);
    }
    out.append(digit_text(n % 10));
}

/// Append a bracketed, comma-separated list of numbers.
pub fn push_number_list(out: &mut String, ids: &[u16])
    ensures
        final(out)@ == old(out)@ + number_list(ids@),
{
    let ghost parts = Seq::new(ids@.len(), |i: int| decimal(ids@[i] as nat));
    let ghost start = out@;
    out.append("[");
    let mut i: usize = 0;
    while i < ids.len()
        invariant
            i <= ids@.len(),
            parts == Seq::new(ids@.len(), |k: int| decimal(ids@[k] as nat)),
            out@ == start + "["@ + joined(parts.take(i as int), ", "@),
        decreases ids.len() - i,
    {
        if i > 0 {
            out.append(", ");
        }
        push_decimal(out, ids[i] as u64);
        proof {
            assert(parts.take(i + 1).drop_last() =~= parts.take(i as int));
            assert(parts.take(i + 1).last() == parts[i as int]);
        }
        i += 1;
    }
    out.append("]");
    proof {
        assert(parts.take(ids@.len() as int) =~= parts);
    }
}

/// A text that may be missing.
pub open spec fn optional_text(text: Option<&str>) -> Option<Seq<char>> {
    match text {
        Some(s) => Some(s@),
        None => None,
    }
}

/// A text that may be missing.
pub open spec fn optional_string(text: Option<String>) -> Option<Seq<char>> {
    match text {
        Some(s) => Some(s@),
        None => None,
    }
}

/// Borrow a text that may be missing.
pub fn borrowed(text: &Option<String>) -> (r: Option<&str>)
    ensures
        optional_text(r) == optional_string(*text),
{
    match text {
        Some(s) => Some(s.as_str()),
        None => None,
    }
}

/// A copy of some texts.
pub fn copied(texts: &Vec<String>) -> (r: Vec<String>)
    ensures
        r@ == texts@,
{
    let mut out: Vec<String> = Vec::new();
    let mut i: usize = 0;
    while i < texts.len()
        invariant
            i <= texts@.len(),
            out@ == texts@.take(i as int),
        decreases texts.len() - i,
    {
        out.push(texts[i].clone());
        proof {
            assert(texts@.take(i + 1) =~= texts@.take(i as int).push(texts@[i as int]));
        }
        i += 1;
    }
    proof {
        assert(texts@.take(i as int) =~= texts@);
    }
    out
}

/// Whether two texts are the same, character for character.
pub fn same_text(a: &str, b: &str) -> (r: bool)
    ensures
        r == (a@ == b@),
{
    let left = a.to_owned();
    let right = b.to_owned();
    left == right
}

/// The characters of `s`, in order.
pub fn chars_of(s: &str) -> (r: Vec<char>)
    ensures
        r@ == s@,
{
    let mut out: Vec<char> = Vec::new();
    for c in it: s.chars()
        invariant
            out@ == it.seq().take(it.index() as int),
            it.seq() == s@,
    {
        out.push(c);
    }
    out
}

/// Whether `c` has the Unicode `White_Space` property.
pub open spec fn is_white_space(c: char) -> bool {
    let n = c as u32;
    ||| 0x9 <= n <= 0xd
    ||| n == 0x20
    ||| n == 0x85
    ||| n == 0xa0
    ||| n == 0x1680
    ||| 0x2000 <= n <= 0x200a
    ||| n == 0x2028
    ||| n == 0x2029
    ||| n == 0x202f
    ||| n == 0x205f
    ||| n == 0x3000
}

/// `s` without its leading white space.
pub open spec fn trimmed_front(s: Seq<char>) -> Seq<char>
    decreases s.len(),
{
    if s.len() > 0 && is_white_space(s[0]) {
        trimmed_front(s.drop_first())
    } else {
        s
    }
}

/// `s` without its trailing white space.
pub open spec fn trimmed_back(s: Seq<char>) -> Seq<char>
    decreases s.len(),
{
    if s.len() > 0 && is_white_space(s.last()) {
        trimmed_back(s.drop_last())
    } else {
        s
    }
}

/// `s` without leading and trailing white space.
pub open spec fn trimmed(s: Seq<char>) -> Seq<char> {
    trimmed_back(trimmed_front(s))
}

fn white_space(c: char) -> (r: bool)
    ensures
        r == is_white_space(c),
{
    let n: u32 = c as u32;
    (0x9 <= n && n <= 0xd) || n == 0x20 || n == 0x85 || n == 0xa0 || n == 0x1680 || (0x2000 <= n
        && n <= 0x200a) || n == 0x2028 || n == 0x2029 || n == 0x202f || n == 0x205f || n == 0x3000
}

/// `s` without leading and trailing white space.
pub fn trim(s: &str) -> (r: String)
    ensures
        r@ == trimmed(s@),
{
    let chars = chars_of(s);
    let mut start: usize = 0;
    proof {
        assert(chars@.skip(0) =~= chars@);
    }
    while start < chars.len() && white_space(chars[start])
        invariant
            start <= chars@.len(),
            trimmed_front(chars@) == trimmed_front(chars@.skip(start as int)),
        decreases chars.len() - start,
    {
        proof {
            assert(chars@.skip(start as int).drop_first() =~= chars@.skip(start + 1));
        }
        start += 1;
    }
    proof {
        if start < chars@.len() {
            assert(chars@.skip(start as int)[0] == chars@[start as int]);
        }
        assert(trimmed_front(chars@) == chars@.skip(start as int));
    }
    let mut end: usize = chars.len();
    proof {
        assert(chars@.skip(start as int) =~= chars@.subrange(start as int, end as int));
    }
    while end > start && white_space(chars[end - 1])
        invariant
            start <= end <= chars@.len(),
            trimmed(chars@) == trimmed_back(chars@.subrange(start as int, end as int)),
        decreases end,
    {
        proof {
            assert(chars@.subrange(start as int, end as int).last() == chars@[end - 1]);
            assert(chars@.subrange(start as int, end as int).drop_last() =~= chars@.subrange(
                start as int,
                end - 1,
            ));
        }
        end -= 1;
    }
    proof {
        if end > start {
            assert(chars@.subrange(start as int, end as int).last() == chars@[end - 1]);
        }
    }
    s.substring_char(start, end).to_owned()
}

/// Whether `s` reads `nan`, in any mix of upper and lower case.
pub open spec fn reads_nan(s: Seq<char>) -> bool {
    &&& s.len() == 3
    &&& s[0] == 'n' || s[0] == 'N'
    &&& s[1] == 'a' || s[1] == 'A'
    &&& s[2] == 'n' || s[2] == 'N'
}

/// Whether `s` reads `nan`, in any mix of upper and lower case.
pub fn is_nan_text(s: &str) -> (r: bool)
    ensures
        r == reads_nan(s@),
{
    let c = chars_of(s);
    c.len() == 3 && (c[0] == 'n' || c[0] == 'N') && (c[1] == 'a' || c[1] == 'A') && (c[2] == 'n'
        || c[2] == 'N')
}

/// Decimal notation is made of digits, has no leading zero but for zero itself, and reads as the
/// number: from left to right, ten times what was read plus the next digit.
pub proof fn law_decimal(n: nat)
    ensures
        decimal(n).len() > 0,
        forall|i: int|
            0 <= i < decimal(n).len() ==> 48 <= (#[trigger] decimal(n)[i]) as int <= 57,
        decimal(n)[0] as int == 48 ==> n == 0,
        decimal(n).fold_left(0, |read: int, c: char| 10 * read + (c as int - 48)) == n,
    decreases n,
{
    let read = |read: int, c: char| 10 * read + (c as int - 48);
    if n < 10 {
        assert(decimal(n).drop_last() =~= Seq::empty());
        assert(decimal(n).last() == digit(n));
        assert(Seq::<char>::empty().fold_left(0, read) == 0);
    } else {
        law_decimal(n / 10);
        assert(decimal(n).drop_last() =~= decimal(n / 10));
        assert(decimal(n).last() == digit(n % 10));
        assert(decimal(n)[0] == decimal(n / 10)[0]);
    }
}

/// Joined parts stand one after another with the separator between neighbours.
pub proof fn law_joined(parts: Seq<Seq<char>>, part: Seq<char>, separator: Seq<char>)
    ensures
        joined(Seq::empty(), separator) == Seq::<char>::empty(),
        joined(parts.push(part), separator) == (if parts.len() == 0 {
            part
        } else {
            joined(parts, separator) + separator + part
        }),
{
    assert(parts.push(part).drop_last() =~= parts);
}

/// Trimming takes white space off both ends and nothing else: `s` is white space up to `from`, does
/// not start with white space there, does not end with it at `to`, and is white space from there on.
pub proof fn law_trimmed(s: Seq<char>, from: int, to: int)
    requires
        0 <= from <= to <= s.len(),
        forall|i: int| 0 <= i < from ==> is_white_space(#[trigger] s[i]),
        forall|i: int| to <= i < s.len() ==> is_white_space(#[trigger] s[i]),
        from < to ==> !is_white_space(s[from]) && !is_white_space(s[to - 1]),
    ensures
        trimmed(s) == s.subrange(from, to),
    decreases s.len(),
{
    if from > 0 {
        assert(is_white_space(s[0]));
        let rest = s.drop_first();
        assert forall|i: int| 0 <= i < from - 1 implies is_white_space(#[trigger] rest[i]) by {
            assert(rest[i] == s[i + 1]);
        }
        assert forall|i: int| to - 1 <= i < rest.len() implies is_white_space(
            #[trigger] rest[i],
        ) by {
            assert(rest[i] == s[i + 1]);
        }
        law_trimmed(rest, from - 1, to - 1);
        assert(rest.subrange(from - 1, to - 1) =~= s.subrange(from, to));
    } else if to == 0 && s.len() > 0 {
        assert(is_white_space(s[0]));
        let rest = s.drop_first();
        assert forall|i: int| 0 <= i < rest.len() implies is_white_space(#[trigger] rest[i]) by {
            assert(rest[i] == s[i + 1]);
        }
        law_trimmed(rest, 0, 0);
        assert(rest.subrange(0, 0) =~= s.subrange(0, 0));
    } else {
        assert(trimmed_front(s) == s);
        lemma_trimmed_back(s, to);
        assert(s.take(to) =~= s.subrange(0, to));
    }
}

proof fn lemma_trimmed_back(s: Seq<char>, to: int)
    requires
        0 <= to <= s.len(),
        forall|i: int| to <= i < s.len() ==> is_white_space(#[trigger] s[i]),
        0 < to ==> !is_white_space(s[to - 1]),
    ensures
        trimmed_back(s) == s.take(to),
    decreases s.len(),
{
    if to < s.len() {
        assert(is_white_space(s[s.len() - 1]));
        let shorter = s.drop_last();
        assert forall|i: int| to <= i < shorter.len() implies is_white_space(
            #[trigger] shorter[i],
        ) by {
            assert(shorter[i] == s[i]);
        }
        lemma_trimmed_back(shorter, to);
        assert(shorter.take(to) =~= s.take(to));
    } else {
        assert(s.take(to) =~= s);
    }
}

/// Which characters are white space: those that Unicode gives that property.
pub proof fn law_white_space(c: char)
    ensures
        is_white_space(c) <==> (9 <= c as int <= 13 || c as int == 32 || c as int == 133 || c as int
            == 160 || c as int == 5760 || 8192 <= c as int <= 8202 || c as int == 8232 || c as int
            == 8233 || c as int == 8239 || c as int == 8287 || c as int == 12288),
{
}

/// What reads as not-a-number: the three letters, each in either case.
pub proof fn law_reads_nan(s: Seq<char>)
    ensures
        reads_nan(s) <==> s.len() == 3 && (s[0] as int == 78 || s[0] as int == 110) && (s[1] as int
            == 65 || s[1] as int == 97) && (s[2] as int == 78 || s[2] as int == 110),
{
}

} // verus!
