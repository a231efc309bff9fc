//! Text as a sequence of characters: taking it apart, and writing numbers.

use vstd::prelude::*;

verus! {

/// `String::push` appends one character to the end of the string.
pub assume_specification[ String::push ](s: &mut String, ch: char)
    ensures
        final(s)@ == old(s)@.push(ch),
;

/// The text that a byte string stands for where it may hold bytes that are no
/// UTF-8.
pub uninterp spec fn utf8_lossy(bytes: Seq<u8>) -> Seq<char>;

/// `String::from_utf8_lossy`: what is UTF-8 is decoded, and everything else is
/// replaced by U+FFFD. How many of those stand for what is not UTF-8 is not
/// stated.
#[verifier::external_body]
pub(crate) fn lossy_text(bytes: &[u8]) -> (text: String)
    ensures
        text@ == utf8_lossy(bytes@),
        vstd::utf8::valid_utf8(bytes@) ==> text@ == vstd::utf8::decode_utf8(bytes@),
{
    String::from_utf8_lossy(bytes).into_owned()
}

/// `String::from_utf8`: the text, where the bytes are UTF-8.
#[verifier::external_body]
pub(crate) fn strict_text(bytes: Vec<u8>) -> (text: Option<String>)
    ensures
        text is Some == vstd::utf8::valid_utf8(bytes@),
        text matches Some(text) ==> text@ == vstd::utf8::decode_utf8(bytes@),
{
    String::from_utf8(bytes).ok()
}

/// The UTF-8 of a text.
pub fn utf8_of(s: &str) -> (bytes: Vec<u8>)
    ensures
        bytes@ == vstd::utf8::encode_utf8(s@),
{
    vstd::slice::slice_to_vec(s.as_bytes())
}

/// The text of a string that may not be there.
pub open spec fn text_in(slot: Option<String>) -> Option<Seq<char>> {
    match slot {
        Some(text) => Some(text@),
        None => None,
    }
}

/// The digit for `d`, with letters from `a` or from `A`.
pub open spec fn digit(d: int, upper: bool) -> char {
    if d < 10 {
        ('0' as int + d) as char
    } else if upper {
        ('A' as int + d - 10) as char
    } else {
        ('a' as int + d - 10) as char
    }
}

/// `n` in decimal, without leading zeros.
pub open spec fn decimal(n: nat) -> Seq<char>
    decreases n,
{
    if n < 10 {
        seq![digit(n as int, false)]
    } else {
        decimal(n / 10).push(digit((n % 10) as int, false))
    }
}

/// `n` in hexadecimal, with leading zeros up to `width` digits.
pub open spec fn hex(n: nat, width: nat, upper: bool) -> Seq<char>
    decreases n + width,
{
    if n < 16 && width <= 1 {
        seq![digit(n as int, upper)]
    } else {
        hex(n / 16, if width == 0 { 0 } else { (width - 1) as nat }, upper).push(
            digit((n % 16) as int, upper),
        )
    }
}

/// The digit for `d`.
pub fn digit_char(d: u8, upper: bool) -> (c: char)
    requires
        d < 16,
    ensures
        c == digit(d as int, upper),
{
    if d < 10 {
        (48u8 + d) as char
    } else if upper {
        (55u8 + d) as char
    } else {
        (87u8 + d) as char
    }
}

/// Append `n` in decimal.
pub fn push_decimal(out: &mut String, n: u64)
    ensures
        final(out)@ == old(out)@ + decimal(n as nat),
    decreases n,
{
    if n >= 10 {
        push_decimal(out, n / 10);
    }
    out.push(digit_char((n % 10) as u8, false));
    assert(out@ =~= old(out)@ + decimal(n as nat));
}

/// Append `n` in hexadecimal, with leading zeros up to `width` digits.
pub fn push_hex(out: &mut String, n: u64, width: usize, upper: bool)
    ensures
        final(out)@ == old(out)@ + hex(n as nat, width as nat, upper),
    decreases n + width,
{
    if n >= 16 || width > 1 {
        push_hex(out, n / 16, if width == 0 { 0 } else { width - 1 }, upper);
    }
    out.push(digit_char((n % 16) as u8, upper));
    assert(out@ =~= old(out)@ + hex(n as nat, width as nat, upper));
}

/// A number below `16^width` takes exactly `width` digits.
pub proof fn lemma_hex_len(n: nat, width: nat, upper: bool)
    requires
        width >= 1,
        n < vstd::arithmetic::power::pow(16, width),
    ensures
        hex(n, width, upper).len() == width,
    decreases width,
{
    reveal(vstd::arithmetic::power::pow);
    vstd::arithmetic::power::lemma_pow1(16);
    if width > 1 {
        let below = vstd::arithmetic::power::pow(16, (width - 1) as nat);
        assert(n / 16 < below) by (nonlinear_arith)
            requires
                n < 16 * below,
        ;
        lemma_hex_len(n / 16, (width - 1) as nat, upper);
    }
}

/// Whether a character is white space (Unicode's `White_Space` property).
pub open spec fn is_white(c: char) -> bool {
    let n = c as u32;
    ||| 0x09 <= n <= 0x0D
    ||| n == 0x20
    ||| n == 0x85
    ||| n == 0xA0
    ||| n == 0x1680
    ||| 0x2000 <= n <= 0x200A
    ||| n == 0x2028
    ||| n == 0x2029
    ||| n == 0x202F
    ||| n == 0x205F
    ||| n == 0x3000
}

/// `s` from its first character that is not white space on.
pub open spec fn trim_start(s: Seq<char>) -> Seq<char>
    decreases s.len(),
{
    if s.len() > 0 && is_white(s[0]) {
        trim_start(s.drop_first())
    } else {
        s
    }
}

/// `s` up to its last character that is not white space.
pub open spec fn trim_end(s: Seq<char>) -> Seq<char>
    decreases s.len(),
{
    if s.len() > 0 && is_white(s.last()) {
        trim_end(s.drop_last())
    } else {
        s
    }
}

/// `s` without white space at either end.
pub open spec fn trim(s: Seq<char>) -> Seq<char> {
    trim_end(trim_start(s))
}

/// `s` without the characters `c` at its end.
pub open spec fn trim_end_of(s: Seq<char>, c: char) -> Seq<char>
    decreases s.len(),
{
    if s.len() > 0 && s.last() == c {
        trim_end_of(s.drop_last(), c)
    } else {
        s
    }
}

/// Where `c` first occurs in `s`; the length of `s` where it does not.
pub open spec fn find(s: Seq<char>, c: char) -> int
    decreases s.len(),
{
    if s.len() == 0 || s[0] == c {
        0
    } else {
        1 + find(s.drop_first(), c)
    }
}

/// How many characters of `s` come before the first white space.
pub open spec fn word_len(s: Seq<char>) -> int
    decreases s.len(),
{
    if s.len() == 0 || is_white(s[0]) {
        0
    } else {
        1 + word_len(s.drop_first())
    }
}

/// The words of `s`, which white space parts.
pub open spec fn words(s: Seq<char>) -> Seq<Seq<char>>
    decreases s.len(),
    via words_decreases
{
    let rest = trim_start(s);
    if rest.len() == 0 {
        Seq::empty()
    } else {
        seq![rest.take(word_len(rest))] + words(rest.skip(word_len(rest)))
    }
}

#[via_fn]
proof fn words_decreases(s: Seq<char>) {
    lemma_trim_start(s);
    let rest = trim_start(s);
    if rest.len() > 0 {
        lemma_word_len(rest);
    }
}

/// The lines of `s`: each ends in a newline, of which the last may lack it, and
/// a carriage return before the newline belongs to the line's end too.
pub open spec fn lines(s: Seq<char>) -> Seq<Seq<char>>
    decreases s.len(),
    via lines_decreases
{
    let at = find(s, '\n');
    if s.len() == 0 {
        Seq::empty()
    } else if at >= s.len() {
        seq![s]
    } else {
        let line = s.take(at);
        seq![
            if line.len() > 0 && line.last() == '\r' {
                line.drop_last()
            } else {
                line
            },
        ] + lines(s.skip(at + 1))
    }
}

#[via_fn]
proof fn lines_decreases(s: Seq<char>) {
    lemma_find(s, '\n');
}

/// Text that ends in a newline and text after it have their lines apart.
pub proof fn lemma_lines_join(a: Seq<char>, b: Seq<char>)
    requires
        a.len() == 0 || a.last() == '\n',
    ensures
        lines(a + b) == lines(a) + lines(b),
    decreases a.len(),
{
    if a.len() == 0 {
        assert(a + b =~= b);
        assert(lines(a) + lines(b) =~= lines(b));
    } else {
        lemma_find(a, '\n');
        let at = find(a, '\n');
        assert(at < a.len()) by {
            if at >= a.len() {
                assert(a[a.len() - 1] != '\n');
            }
        }
        let whole = a + b;
        lemma_found(whole, '\n', at);
        assert(whole.take(at) =~= a.take(at));
        let rest = a.skip(at + 1);
        assert(whole.skip(at + 1) =~= rest + b);
        lemma_lines_join(rest, b);
        let first = lines(a)[0];
        assert(lines(a) =~= seq![first] + lines(rest));
        assert(lines(whole) =~= seq![first] + (lines(rest) + lines(b)));
    }
}

/// White space at the end of a text does not show once it is trimmed.
pub proof fn lemma_trim_last(s: Seq<char>)
    requires
        s.len() > 0,
        is_white(s.last()),
    ensures
        trim(s.drop_last()) == trim(s),
    decreases s.len(),
{
    let shorter = s.drop_last();
    if is_white(s[0]) {
        if s.len() == 1 {
            assert(s.drop_first() =~= Seq::<char>::empty());
            assert(shorter =~= Seq::<char>::empty());
        } else {
            assert(shorter.drop_first() =~= s.drop_first().drop_last());
            lemma_trim_last(s.drop_first());
        }
    }
}

/// Lines without the white space at their ends.
pub open spec fn trims(lines: Seq<Seq<char>>) -> Seq<Seq<char>> {
    lines.map_values(|line: Seq<char>| trim(line))
}

/// A newline after a text that lacks it ends its last line, and shows in no line
/// once they are trimmed.
pub proof fn lemma_lines_end(s: Seq<char>)
    requires
        s.len() > 0,
        s.last() != '\n',
    ensures
        trims(lines(s.push('\n'))) == trims(lines(s)),
    decreases s.len(),
{
    let more = s.push('\n');
    lemma_find(s, '\n');
    let at = find(s, '\n');
    lemma_found(more, '\n', at);
    assert(more.take(at) =~= s.take(at));
    if at >= s.len() {
        assert(s.take(at) =~= s);
        assert(more.skip(at + 1) =~= Seq::<char>::empty());
        if s.last() == '\r' {
            lemma_trim_last(s);
        }
        let line = if s.last() == '\r' {
            s.drop_last()
        } else {
            s
        };
        assert(lines(more.skip(at + 1)) =~= Seq::<Seq<char>>::empty());
        assert(lines(more) =~= seq![line]);
        assert(lines(s) =~= seq![s]);
        assert(trims(lines(more)) =~= seq![trim(s)]);
        assert(trims(lines(s)) =~= seq![trim(s)]);
    } else {
        let rest = s.skip(at + 1);
        assert(rest.len() > 0) by {
            if rest.len() == 0 {
                assert(s[at] == s.last());
            }
        }
        assert(rest.last() == s.last());
        assert(more.skip(at + 1) =~= rest.push('\n'));
        lemma_lines_end(rest);
        let first = lines(s)[0];
        assert(lines(s) =~= seq![first] + lines(rest));
        assert(lines(more) =~= seq![first] + lines(rest.push('\n')));
        assert(trims(lines(s)) =~= seq![trim(first)] + trims(lines(rest)));
        assert(trims(lines(more)) =~= seq![trim(first)] + trims(lines(rest.push('\n'))));
    }
}

/// The pieces of `s` between the characters `c`: one more than there are of
/// those.
pub open spec fn split(s: Seq<char>, c: char) -> Seq<Seq<char>>
    decreases s.len(),
    via split_decreases
{
    let at = find(s, c);
    if at >= s.len() {
        seq![s]
    } else {
        seq![s.take(at)] + split(s.skip(at + 1), c)
    }
}

#[via_fn]
proof fn split_decreases(s: Seq<char>, c: char) {
    lemma_find(s, c);
}

/// What stands before and after the first `c` in `s`.
pub open spec fn split_once(s: Seq<char>, c: char) -> Option<(Seq<char>, Seq<char>)> {
    let at = find(s, c);
    if at >= s.len() {
        None
    } else {
        Some((s.take(at), s.skip(at + 1)))
    }
}

/// Whether `pattern` stands at `at` in `s`.
pub open spec fn stands_at(s: Seq<char>, pattern: Seq<char>, at: int) -> bool {
    0 <= at && at + pattern.len() <= s.len() && s.subrange(at, at + pattern.len()) == pattern
}

/// What stands before and after the first `pattern` from `from` on in `s`.
pub open spec fn split_at_text(s: Seq<char>, pattern: Seq<char>, from: int) -> Option<
    (Seq<char>, Seq<char>),
>
    decreases s.len() - from + 1,
{
    if from < 0 || from + pattern.len() > s.len() {
        None
    } else if stands_at(s, pattern, from) {
        Some((s.take(from), s.skip((from + pattern.len()) as int)))
    } else {
        split_at_text(s, pattern, from + 1)
    }
}

/// `s` with every `from` replaced by `to`.
pub open spec fn replaced(s: Seq<char>, from: char, to: char) -> Seq<char> {
    s.map_values(
        |c: char|
            if c == from {
                to
            } else {
                c
            },
    )
}

/// What follows `prefix` in `s`, where `s` starts with it.
pub open spec fn strip_prefix(s: Seq<char>, prefix: Seq<char>) -> Option<Seq<char>> {
    if prefix.is_prefix_of(s) {
        Some(s.skip(prefix.len() as int))
    } else {
        None
    }
}

/// What comes before `suffix` in `s`, where `s` ends with it.
pub open spec fn strip_suffix(s: Seq<char>, suffix: Seq<char>) -> Option<Seq<char>> {
    if suffix.is_suffix_of(s) {
        Some(s.take(s.len() - suffix.len()))
    } else {
        None
    }
}

/// `parts` with `between` between each two.
pub open spec fn join(parts: Seq<Seq<char>>, between: Seq<char>) -> Seq<char>
    decreases parts.len(),
{
    if parts.len() == 0 {
        Seq::empty()
    } else if parts.len() == 1 {
        parts[0]
    } else {
        join(parts.drop_last(), between) + between + parts.last()
    }
}

/// The texts in a vector.
pub open spec fn texts(parts: Seq<Vec<char>>) -> Seq<Seq<char>> {
    parts.map_values(|part: Vec<char>| part@)
}

/// The texts in a vector of strings.
pub open spec fn strings(parts: Seq<String>) -> Seq<Seq<char>> {
    parts.map_values(|part: String| part@)
}

pub proof fn lemma_trim_start(s: Seq<char>)
    ensures
        trim_start(s).len() <= s.len(),
        trim_start(s) == s.skip(s.len() - trim_start(s).len()),
        trim_start(s).len() > 0 ==> !is_white(trim_start(s)[0]),
    decreases s.len(),
{
    if s.len() > 0 && is_white(s[0]) {
        lemma_trim_start(s.drop_first());
        assert(trim_start(s) =~= s.skip(s.len() - trim_start(s).len()));
    } else {
        assert(s.skip(0) =~= s);
    }
}

pub proof fn lemma_word_len(s: Seq<char>)
    ensures
        0 <= word_len(s) <= s.len(),
        s.len() > 0 && !is_white(s[0]) ==> word_len(s) > 0,
        forall|i: int| 0 <= i < word_len(s) ==> !is_white(#[trigger] s[i]),
        word_len(s) < s.len() ==> is_white(s[word_len(s)]),
    decreases s.len(),
{
    if s.len() > 0 && !is_white(s[0]) {
        lemma_word_len(s.drop_first());
        assert forall|i: int| 0 <= i < word_len(s) implies !is_white(#[trigger] s[i]) by {
            if i > 0 {
                assert(s[i] == s.drop_first()[i - 1]);
            }
        }
    }
}

pub proof fn lemma_find(s: Seq<char>, c: char)
    ensures
        0 <= find(s, c) <= s.len(),
        forall|i: int| 0 <= i < find(s, c) ==> #[trigger] s[i] != c,
        find(s, c) < s.len() ==> s[find(s, c)] == c,
    decreases s.len(),
{
    if s.len() > 0 && s[0] != c {
        lemma_find(s.drop_first(), c);
        assert forall|i: int| 0 <= i < find(s, c) implies #[trigger] s[i] != c by {
            if i > 0 {
                assert(s[i] == s.drop_first()[i - 1]);
            }
        }
    }
}

/// The first place where `c` stands is where `find` finds it.
pub proof fn lemma_found(s: Seq<char>, c: char, at: int)
    requires
        0 <= at <= s.len(),
        forall|i: int| 0 <= i < at ==> #[trigger] s[i] != c,
        at < s.len() ==> s[at] == c,
    ensures
        find(s, c) == at,
{
    lemma_find(s, c);
    let f = find(s, c);
    if f < at {
        assert(s[f] != c);
    }
    if at < f {
        assert(s[at] != c);
    }
}

/// The characters of a string.
pub fn chars_of(s: &str) -> (chars: Vec<char>)
    ensures
        chars@ == s@,
{
    let mut chars: Vec<char> = Vec::new();
    for c in it: s.chars()
        invariant
            it.seq() == s@,
            chars@ == s@.take(it.index() as int),
    {
        chars.push(c);
        assert(chars@ =~= s@.take(it.index() + 1));
    }
    assert(s@.take(s@.len() as int) =~= s@);
    chars
}

/// A string of characters.
pub fn string_of(chars: &[char]) -> (s: String)
    ensures
        s@ == chars@,
{
    let mut s = String::new();
    push_chars(&mut s, chars);
    assert(s@ =~= chars@);
    s
}

/// Append characters to a string.
pub fn push_chars(out: &mut String, chars: &[char])
    ensures
        final(out)@ == old(out)@ + chars@,
{
    let mut i: usize = 0;
    assert(out@ =~= old(out)@ + chars@.take(0));
    while i < chars.len()
        invariant
            i <= chars.len(),
            out@ == old(out)@ + chars@.take(i as int),
        decreases chars.len() - i,
    {
        out.push(chars[i]);
        assert(out@ =~= old(out)@ + chars@.take(i + 1));
        i += 1;
    }
    assert(chars@.take(i as int) =~= chars@);
}

/// Whether two texts are the same.
pub fn same_chars(a: &[char], b: &[char]) -> (same: bool)
    ensures
        same == (a@ == b@),
{
    if a.len() != b.len() {
        return false;
    }
    let mut i: usize = 0;
    while i < a.len()
        invariant
            a@.len() == b@.len(),
            i <= a.len(),
            forall|k: int| 0 <= k < i ==> a@[k] == b@[k],
        decreases a.len() - i,
    {
        if a[i] != b[i] {
            return false;
        }
        i += 1;
    }
    assert(a@ =~= b@);
    true
}

/// Whether a text reads `expected`.
pub fn reads(chars: &[char], expected: &str) -> (same: bool)
    ensures
        same == (chars@ == expected@),
{
    same_chars(chars, &chars_of(expected))
}

/// Whether two strings read the same.
pub fn same_text(a: &str, b: &str) -> (same: bool)
    ensures
        same == (a@ == b@),
{
    same_chars(&chars_of(a), &chars_of(b))
}

pub fn is_white_char(c: char) -> (white: bool)
    ensures
        white == is_white(c),
{
    let n: u32 = c as u32;
    (0x09 <= n && n <= 0x0D) || n == 0x20 || n == 0x85 || n == 0xA0 || n == 0x1680 || (0x2000 <= n
        && n <= 0x200A) || n == 0x2028 || n == 0x2029 || n == 0x202F || n == 0x205F || n == 0x3000
}

/// `chars` without white space at its start.
pub fn trimmed_start(chars: &[char]) -> (out: &[char])
    ensures
        out@ == trim_start(chars@),
{
    let mut i: usize = 0;
    assert(chars@.skip(0) =~= chars@);
    while i < chars.len() && is_white_char(chars[i])
        invariant
            i <= chars.len(),
            trim_start(chars@.skip(i as int)) == trim_start(chars@),
        decreases chars.len() - i,
    {
        assert(chars@.skip(i as int).drop_first() =~= chars@.skip(i + 1));
        i += 1;
    }
    assert(chars@.subrange(i as int, chars@.len() as int) =~= chars@.skip(i as int));
    &chars[i..chars.len()]
}

/// `chars` without white space at its end.
pub fn trimmed_end(chars: &[char]) -> (out: &[char])
    ensures
        out@ == trim_end(chars@),
{
    let mut n: usize = chars.len();
    assert(chars@.take(n as int) =~= chars@);
    while n > 0 && is_white_char(chars[n - 1])
        invariant
            n <= chars.len(),
            trim_end(chars@.take(n as int)) == trim_end(chars@),
        decreases n,
    {
        assert(chars@.take(n as int).drop_last() =~= chars@.take(n - 1));
        n -= 1;
    }
    assert(chars@.subrange(0, n as int) =~= chars@.take(n as int));
    &chars[0..n]
}

/// `chars` without white space at either end.
pub fn trimmed(chars: &[char]) -> (out: &[char])
    ensures
        out@ == trim(chars@),
{
    trimmed_end(trimmed_start(chars))
}

/// `chars` without the characters `c` at its end.
pub fn trimmed_end_of(chars: &[char], c: char) -> (out: &[char])
    ensures
        out@ == trim_end_of(chars@, c),
{
    let mut n: usize = chars.len();
    assert(chars@.take(n as int) =~= chars@);
    while n > 0 && chars[n - 1] == c
        invariant
            n <= chars.len(),
            trim_end_of(chars@.take(n as int), c) == trim_end_of(chars@, c),
        decreases n,
    {
        assert(chars@.take(n as int).drop_last() =~= chars@.take(n - 1));
        n -= 1;
    }
    assert(chars@.subrange(0, n as int) =~= chars@.take(n as int));
    &chars[0..n]
}

/// Where `c` first occurs; the length where it does not.
pub fn found(chars: &[char], c: char) -> (at: usize)
    ensures
        at == find(chars@, c),
        at <= chars@.len(),
{
    let mut i: usize = 0;
    while i < chars.len() && chars[i] != c
        invariant
            i <= chars.len(),
            forall|k: int| 0 <= k < i ==> #[trigger] chars@[k] != c,
        decreases chars.len() - i,
    {
        i += 1;
    }
    proof {
        lemma_found(chars@, c, i as int);
    }
    i
}

/// What stands before and after the first `c`.
pub fn parted(chars: &[char], c: char) -> (parts: Option<(&[char], &[char])>)
    ensures
        match parts {
            Some((before, after)) => split_once(chars@, c) == Some((before@, after@)),
            None => split_once(chars@, c) is None,
        },
{
    let at: usize = found(chars, c);
    if at == chars.len() {
        return None;
    }
    assert(chars@.subrange(0, at as int) =~= chars@.take(at as int));
    assert(chars@.subrange(at + 1, chars@.len() as int) =~= chars@.skip(at + 1));
    Some((&chars[0..at], &chars[at + 1..chars.len()]))
}

/// What stands before and after the first `pattern`.
pub fn parted_by<'a>(chars: &'a [char], pattern: &str) -> (parts: Option<
    (&'a [char], &'a [char]),
>)
    ensures
        match parts {
            Some((before, after)) => split_at_text(chars@, pattern@, 0) == Some((before@, after@)),
            None => split_at_text(chars@, pattern@, 0) is None,
        },
{
    let wanted = chars_of(pattern);
    let n: usize = wanted.len();
    let mut i: usize = 0;
    while i <= chars.len() && chars.len() - i >= n
        invariant
            wanted@ == pattern@,
            n == wanted@.len(),
            0 <= i <= chars.len() + 1,
            split_at_text(chars@, pattern@, i as int) == split_at_text(chars@, pattern@, 0),
        decreases chars.len() + 1 - i,
    {
        if same_chars(&chars[i..i + n], &wanted) {
            assert(chars@.subrange(0, i as int) =~= chars@.take(i as int));
            assert(chars@.subrange(i + n, chars@.len() as int) =~= chars@.skip(i + n));
            return Some((&chars[0..i], &chars[i + n..chars.len()]));
        }
        if i == chars.len() {
            assert(split_at_text(chars@, pattern@, i + 1) is None);
            return None;
        }
        i += 1;
    }
    None
}

/// `chars` with every `from` replaced by `to`.
pub fn with_replaced(chars: &[char], from: char, to: char) -> (out: Vec<char>)
    ensures
        out@ == replaced(chars@, from, to),
{
    let mut out: Vec<char> = Vec::new();
    let mut i: usize = 0;
    while i < chars.len()
        invariant
            i <= chars.len(),
            out@ == replaced(chars@, from, to).take(i as int),
        decreases chars.len() - i,
    {
        let c = chars[i];
        out.push(
            if c == from {
                to
            } else {
                c
            },
        );
        assert(out@ =~= replaced(chars@, from, to).take(i + 1));
        i += 1;
    }
    assert(out@ =~= replaced(chars@, from, to));
    out
}

/// What follows `prefix`, where `chars` starts with it.
pub fn after_prefix<'a>(chars: &'a [char], prefix: &str) -> (rest: Option<&'a [char]>)
    ensures
        match rest {
            Some(rest) => strip_prefix(chars@, prefix@) == Some(rest@),
            None => strip_prefix(chars@, prefix@) is None,
        },
{
    let wanted = chars_of(prefix);
    let n: usize = wanted.len();
    if chars.len() < n || !same_chars(&chars[0..n], &wanted) {
        assert(prefix@.is_prefix_of(chars@) ==> chars@.subrange(0, n as int) =~= prefix@);
        return None;
    }
    assert(chars@.subrange(n as int, chars@.len() as int) =~= chars@.skip(n as int));
    Some(&chars[n..chars.len()])
}

/// What comes before `suffix`, where `chars` ends with it.
pub fn before_suffix<'a>(chars: &'a [char], suffix: &str) -> (rest: Option<&'a [char]>)
    ensures
        match rest {
            Some(rest) => strip_suffix(chars@, suffix@) == Some(rest@),
            None => strip_suffix(chars@, suffix@) is None,
        },
{
    let wanted = chars_of(suffix);
    let n: usize = wanted.len();
    let len: usize = chars.len();
    if len < n || !same_chars(&chars[len - n..len], &wanted) {
        assert(suffix@.is_suffix_of(chars@) ==> chars@.subrange(len - n, len as int) =~= suffix@);
        return None;
    }
    assert(chars@.subrange(0, len - n) =~= chars@.take(len - n));
    Some(&chars[0..len - n])
}

/// The words of a text.
pub fn words_of(chars: &[char]) -> (out: Vec<Vec<char>>)
    ensures
        texts(out@) == words(chars@),
{
    let mut out: Vec<Vec<char>> = Vec::new();
    let mut i: usize = 0;
    assert(chars@.skip(0) =~= chars@);
    assert(texts(out@) + words(chars@.skip(0)) =~= words(chars@));
    while i < chars.len()
        invariant
            i <= chars.len(),
            texts(out@) + words(chars@.skip(i as int)) == words(chars@),
        decreases chars.len() - i,
    {
        let ghost rest = chars@.skip(i as int);
        let ghost done = texts(out@);
        assert(chars@.subrange(i as int, chars@.len() as int) =~= rest);
        let tail = trimmed_start(&chars[i..chars.len()]);
        proof {
            lemma_trim_start(rest);
        }
        if tail.len() == 0 {
            assert(words(rest) =~= Seq::<Seq<char>>::empty());
            i = chars.len();
            assert(chars@.skip(i as int) =~= Seq::<char>::empty());
            assert(texts(out@) + words(chars@.skip(i as int)) =~= done + words(rest));
            continue;
        }
        let start: usize = chars.len() - tail.len();
        assert(tail@ =~= chars@.skip(start as int));
        let mut n: usize = 0;
        while n < tail.len() && !is_white_char(tail[n])
            invariant
                n <= tail.len(),
                forall|k: int| 0 <= k < n ==> !is_white(#[trigger] tail@[k]),
            decreases tail.len() - n,
        {
            n += 1;
        }
        proof {
            lemma_word_len(tail@);
            let w = word_len(tail@);
            if w < n {
                assert(!is_white(tail@[w]));
            }
            if (n as int) < w {
                assert(!is_white(tail@[n as int]));
            }
        }
        let word = vstd::slice::slice_to_vec(&tail[0..n]);
        let ghost one = word@;
        out.push(word);
        assert(one =~= tail@.take(n as int));
        assert(texts(out@) =~= done.push(one));
        i = start + n;
        assert(tail@.skip(n as int) =~= chars@.skip(i as int));
        assert(done.push(one) + words(chars@.skip(i as int)) =~= done + (seq![one] + words(
            chars@.skip(i as int),
        )));
    }
    assert(chars@.skip(i as int) =~= Seq::<char>::empty());
    assert(texts(out@) =~= texts(out@) + Seq::<Seq<char>>::empty());
    out
}

/// The lines of a text.
pub fn lines_of(chars: &[char]) -> (out: Vec<Vec<char>>)
    ensures
        texts(out@) == lines(chars@),
{
    let mut out: Vec<Vec<char>> = Vec::new();
    let mut i: usize = 0;
    assert(chars@.skip(0) =~= chars@);
    assert(texts(out@) + lines(chars@.skip(0)) =~= lines(chars@));
    while i < chars.len()
        invariant
            i <= chars.len(),
            texts(out@) + lines(chars@.skip(i as int)) == lines(chars@),
        decreases chars.len() - i,
    {
        let ghost rest = chars@.skip(i as int);
        let ghost done = texts(out@);
        assert(chars@.subrange(i as int, chars@.len() as int) =~= rest);
        let tail = &chars[i..chars.len()];
        let at: usize = found(tail, '\n');
        if at == tail.len() {
            let line = vstd::slice::slice_to_vec(tail);
            let ghost one = line@;
            out.push(line);
            assert(texts(out@) =~= done.push(one));
            i = chars.len();
            assert(chars@.skip(i as int) =~= Seq::<char>::empty());
            assert(texts(out@) + lines(chars@.skip(i as int)) =~= done + lines(rest));
        } else {
            let end: usize = if at > 0 && tail[at - 1] == '\r' {
                at - 1
            } else {
                at
            };
            let line = vstd::slice::slice_to_vec(&tail[0..end]);
            let ghost one = line@;
            out.push(line);
            assert(one =~= if tail@.take(at as int).len() > 0 && tail@.take(at as int).last()
                == '\r' {
                tail@.take(at as int).drop_last()
            } else {
                tail@.take(at as int)
            });
            assert(texts(out@) =~= done.push(one));
            i = i + at + 1;
            assert(rest.skip(at + 1) =~= chars@.skip(i as int));
            assert(done.push(one) + lines(chars@.skip(i as int)) =~= done + (seq![one] + lines(
                chars@.skip(i as int),
            )));
        }
    }
    assert(chars@.skip(i as int) =~= Seq::<char>::empty());
    assert(texts(out@) =~= texts(out@) + Seq::<Seq<char>>::empty());
    out
}

/// The pieces of a text between the characters `c`.
pub fn pieces_of(chars: &[char], c: char) -> (out: Vec<Vec<char>>)
    ensures
        texts(out@) == split(chars@, c),
{
    let mut out: Vec<Vec<char>> = Vec::new();
    let mut i: usize = 0;
    assert(chars@.skip(0) =~= chars@);
    assert(texts(out@) + split(chars@.skip(0), c) =~= split(chars@, c));
    loop
        invariant
            i <= chars.len(),
            texts(out@) + split(chars@.skip(i as int), c) == split(chars@, c),
        decreases chars.len() - i,
    {
        let ghost rest = chars@.skip(i as int);
        let ghost done = texts(out@);
        assert(chars@.subrange(i as int, chars@.len() as int) =~= rest);
        let tail = &chars[i..chars.len()];
        let at: usize = found(tail, c);
        let piece = vstd::slice::slice_to_vec(&tail[0..at]);
        let ghost one = piece@;
        out.push(piece);
        assert(one =~= tail@.take(at as int));
        assert(texts(out@) =~= done.push(one));
        if at == tail.len() {
            assert(one =~= tail@);
            assert(texts(out@) =~= done + seq![one]);
            return out;
        }
        i = i + at + 1;
        assert(rest.skip(at + 1) =~= chars@.skip(i as int));
        assert(done.push(one) + split(chars@.skip(i as int), c) =~= done + (seq![one] + split(
            chars@.skip(i as int),
            c,
        )));
    }
}

/// `parts` with `between` between each two.
pub fn joined(parts: &[Vec<char>], between: &str) -> (out: Vec<char>)
    ensures
        out@ == join(texts(parts@), between@),
{
    let separator = chars_of(between);
    let mut out: Vec<char> = Vec::new();
    let mut i: usize = 0;
    assert(texts(parts@).take(0) =~= Seq::<Seq<char>>::empty());
    while i < parts.len()
        invariant
            i <= parts.len(),
            separator@ == between@,
            out@ == join(texts(parts@).take(i as int), between@),
        decreases parts.len() - i,
    {
        let ghost more = texts(parts@).take(i + 1);
        let ghost before = out@;
        assert(more.drop_last() =~= texts(parts@).take(i as int));
        assert(more.last() == parts@[i as int]@);
        if i > 0 {
            out.extend_from_slice(&separator);
            assert(out@ =~= before + between@);
        }
        let ghost half = out@;
        out.extend_from_slice(&parts[i]);
        assert(out@ =~= half + parts@[i as int]@);
        if i == 0 {
            assert(before =~= Seq::<char>::empty());
            assert(out@ =~= more[0]);
        }
        i += 1;
    }
    assert(texts(parts@).take(i as int) =~= texts(parts@));
    out
}

/// The number that a digit stands for.
pub open spec fn digit_value(c: char, radix: int) -> Option<int> {
    let n = c as u32 as int;
    let d = if 48 <= n <= 57 {
        n - 48
    } else if 65 <= n <= 90 {
        n - 55
    } else if 97 <= n <= 122 {
        n - 87
    } else {
        99
    };
    if d < radix {
        Some(d)
    } else {
        None
    }
}

/// The number that a run of digits stands for.
pub open spec fn digits_value(s: Seq<char>, radix: int) -> Option<int>
    decreases s.len(),
{
    if s.len() == 0 {
        Some(0)
    } else {
        match (digits_value(s.drop_last(), radix), digit_value(s.last(), radix)) {
            (Some(front), Some(d)) => Some(front * radix + d),
            _ => None,
        }
    }
}

/// The number that `s` stands for, where it is one from zero to `max`: digits,
/// of which there is at least one, after a plus sign that may be there.
pub open spec fn unsigned_in(s: Seq<char>, radix: int, max: int) -> Option<int> {
    let digits = if s.len() > 0 && s[0] == '+' {
        s.drop_first()
    } else {
        s
    };
    if digits.len() == 0 {
        None
    } else {
        match digits_value(digits, radix) {
            Some(n) if n <= max => Some(n),
            _ => None,
        }
    }
}

/// The decimal number that `s` stands for, where `i64` holds it.
pub open spec fn signed_in(s: Seq<char>) -> Option<int> {
    if s.len() > 0 && s[0] == '-' {
        let digits = s.drop_first();
        if digits.len() == 0 {
            None
        } else {
            match digits_value(digits, 10) {
                Some(n) if n <= 0x8000_0000_0000_0000 => Some(-n),
                _ => None,
            }
        }
    } else {
        unsigned_in(s, 10, i64::MAX as int)
    }
}

proof fn lemma_digits_grow(s: Seq<char>, radix: int, count: int)
    requires
        2 <= radix <= 36,
        0 <= count <= s.len(),
        digits_value(s, radix) is Some,
    ensures
        digits_value(s.take(count), radix) is Some,
        0 <= digits_value(s.take(count), radix)->0 <= digits_value(s, radix)->0,
    decreases s.len(),
{
    if count == s.len() {
        assert(s.take(count) =~= s);
        if count > 0 {
            lemma_digits_grow(s.drop_last(), radix, count - 1);
            let front = digits_value(s.drop_last(), radix)->0;
            assert(0 <= front * radix) by (nonlinear_arith)
                requires
                    0 <= front,
                    2 <= radix,
            ;
        }
    } else {
        lemma_digits_grow(s.drop_last(), radix, count);
        assert(s.take(count) =~= s.drop_last().take(count));
        let front = digits_value(s.drop_last(), radix)->0;
        assert(front <= front * radix) by (nonlinear_arith)
            requires
                0 <= front,
                2 <= radix,
        ;
    }
}

fn value_of_digit(c: char, radix: u64) -> (d: Option<u64>)
    requires
        radix <= 36,
    ensures
        match d {
            Some(d) => digit_value(c, radix as int) == Some(d as int) && d < radix,
            None => digit_value(c, radix as int) is None,
        },
{
    let n: u32 = c as u32;
    let d: u64 = if 48 <= n && n <= 57 {
        (n - 48) as u64
    } else if 65 <= n && n <= 90 {
        (n - 55) as u64
    } else if 97 <= n && n <= 122 {
        (n - 87) as u64
    } else {
        99
    };
    if d < radix {
        Some(d)
    } else {
        None
    }
}

fn value_of_digits(chars: &[char], radix: u64, max: u64) -> (value: Option<u64>)
    requires
        2 <= radix <= 36,
    ensures
        match value {
            Some(n) => digits_value(chars@, radix as int) == Some(n as int) && n <= max,
            None => match digits_value(chars@, radix as int) {
                Some(n) => n > max,
                None => true,
            },
        },
{
    let mut value: u64 = 0;
    let mut i: usize = 0;
    assert(chars@.take(0) =~= Seq::<char>::empty());
    while i < chars.len()
        invariant
            2 <= radix <= 36,
            i <= chars.len(),
            value <= max,
            digits_value(chars@.take(i as int), radix as int) == Some(value as int),
        decreases chars.len() - i,
    {
        let ghost more = chars@.take(i + 1);
        assert(more.drop_last() =~= chars@.take(i as int));
        assert(more.last() == chars@[i as int]);
        let next: Option<u64> = match value_of_digit(chars[i], radix) {
            Some(d) => {
                assert(0 <= value * radix) by (nonlinear_arith)
                    requires
                        0 <= value,
                        2 <= radix,
                ;
                match value.checked_mul(radix) {
                    Some(shifted) => if shifted <= max && d <= max - shifted {
                        Some(shifted + d)
                    } else {
                        None
                    },
                    None => None,
                }
            },
            None => None,
        };
        match next {
            Some(sum) => {
                value = sum;
            },
            None => {
                proof {
                    if digits_value(chars@, radix as int) is Some {
                        lemma_digits_grow(chars@, radix as int, i + 1);
                    }
                }
                return None;
            },
        }
        i += 1;
    }
    assert(chars@.take(i as int) =~= chars@);
    Some(value)
}

/// Parse a number from zero to `max`.
pub fn parse_unsigned(chars: &[char], radix: u64, max: u64) -> (value: Option<u64>)
    requires
        2 <= radix <= 36,
    ensures
        match value {
            Some(n) => unsigned_in(chars@, radix as int, max as int) == Some(n as int) && n <= max,
            None => unsigned_in(chars@, radix as int, max as int) is None,
        },
{
    let start: usize = if chars.len() > 0 && chars[0] == '+' {
        1
    } else {
        0
    };
    let digits = &chars[start..chars.len()];
    assert(digits@ =~= if start == 1 {
        chars@.drop_first()
    } else {
        chars@
    });
    if digits.len() == 0 {
        return None;
    }
    value_of_digits(digits, radix, max)
}

/// Parse a decimal number.
pub fn parse_signed(chars: &[char]) -> (value: Option<i64>)
    ensures
        match value {
            Some(n) => signed_in(chars@) == Some(n as int),
            None => signed_in(chars@) is None,
        },
{
    if chars.len() > 0 && chars[0] == '-' {
        let digits = &chars[1..chars.len()];
        assert(digits@ =~= chars@.drop_first());
        if digits.len() == 0 {
            return None;
        }
        match value_of_digits(digits, 10, 0x8000_0000_0000_0000) {
            Some(n) => if n == 0x8000_0000_0000_0000 {
                Some(i64::MIN)
            } else {
                Some(-(n as i64))
            },
            None => None,
        }
    } else {
        match parse_unsigned(chars, 10, 0x7FFF_FFFF_FFFF_FFFF) {
            Some(n) => Some(n as i64),
            None => None,
        }
    }
}

/// `n` in decimal, with a minus sign where it is negative.
pub open spec fn signed_decimal(n: int) -> Seq<char> {
    if n < 0 {
        "-"@ + decimal((-n) as nat)
    } else {
        decimal(n as nat)
    }
}

/// Append `n` in decimal.
pub fn push_signed(out: &mut String, n: i64)
    ensures
        final(out)@ == old(out)@ + signed_decimal(n as int),
{
    if n < 0 {
        out.push('-');
        proof {
            reveal_strlit("-");
        }
        assert(out@ =~= old(out)@ + "-"@);
        let magnitude: u64 = if n == i64::MIN {
            0x8000_0000_0000_0000
        } else {
            (-n) as u64
        };
        push_decimal(out, magnitude);
        assert(out@ =~= old(out)@ + signed_decimal(n as int));
    } else {
        push_decimal(out, n as u64);
    }
}

/// The lines of `s`, each with the newline that ends it.
pub open spec fn whole_lines(s: Seq<char>) -> Seq<Seq<char>>
    decreases s.len(),
    via whole_lines_decreases
{
    let at = find(s, '\n');
    if s.len() == 0 {
        Seq::empty()
    } else if at >= s.len() {
        seq![s]
    } else {
        seq![s.take(at + 1)] + whole_lines(s.skip(at + 1))
    }
}

#[via_fn]
proof fn whole_lines_decreases(s: Seq<char>) {
    lemma_find(s, '\n');
}

/// The lines of a text, each with the newline that ends it.
pub fn whole_lines_of(chars: &[char]) -> (out: Vec<Vec<char>>)
    ensures
        texts(out@) == whole_lines(chars@),
{
    let mut out: Vec<Vec<char>> = Vec::new();
    let mut i: usize = 0;
    assert(chars@.skip(0) =~= chars@);
    assert(texts(out@) + whole_lines(chars@.skip(0)) =~= whole_lines(chars@));
    while i < chars.len()
        invariant
            i <= chars.len(),
            texts(out@) + whole_lines(chars@.skip(i as int)) == whole_lines(chars@),
        decreases chars.len() - i,
    {
        let ghost rest = chars@.skip(i as int);
        let ghost done = texts(out@);
        assert(chars@.subrange(i as int, chars@.len() as int) =~= rest);
        let tail = &chars[i..chars.len()];
        let at: usize = found(tail, '\n');
        let end: usize = if at == tail.len() {
            at
        } else {
            at + 1
        };
        let line = vstd::slice::slice_to_vec(&tail[0..end]);
        let ghost one = line@;
        out.push(line);
        assert(texts(out@) =~= done.push(one));
        i = i + end;
        proof {
            assert(rest.skip(end as int) =~= chars@.skip(i as int));
            assert(one =~= rest.take(end as int));
            if at == tail.len() {
                assert(one =~= rest);
                assert(chars@.skip(i as int) =~= Seq::<char>::empty());
            }
            assert(done.push(one) + whole_lines(chars@.skip(i as int)) =~= done + (seq![one]
                + whole_lines(chars@.skip(i as int))));
            assert(done + (seq![one] + whole_lines(chars@.skip(i as int))) =~= done + whole_lines(
                rest,
            ));
        }
    }
    assert(chars@.skip(i as int) =~= Seq::<char>::empty());
    assert(texts(out@) =~= texts(out@) + Seq::<Seq<char>>::empty());
    out
}

/// `s` without the characters `c`.
pub open spec fn without(s: Seq<char>, c: char) -> Seq<char>
    decreases s.len(),
{
    if s.len() == 0 {
        Seq::empty()
    } else if s.last() == c {
        without(s.drop_last(), c)
    } else {
        without(s.drop_last(), c).push(s.last())
    }
}

/// `chars` without the characters `c`.
pub fn with_removed(chars: &[char], c: char) -> (out: Vec<char>)
    ensures
        out@ == without(chars@, c),
{
    let mut out: Vec<char> = Vec::new();
    let mut i: usize = 0;
    assert(chars@.take(0) =~= Seq::<char>::empty());
    while i < chars.len()
        invariant
            i <= chars.len(),
            out@ == without(chars@.take(i as int), c),
        decreases chars.len() - i,
    {
        assert(chars@.take(i + 1).drop_last() =~= chars@.take(i as int));
        if chars[i] != c {
            out.push(chars[i]);
        }
        i += 1;
    }
    assert(chars@.take(i as int) =~= chars@);
    out
}

/// What follows the last `c` in `s`.
pub open spec fn after_last(s: Seq<char>, c: char) -> Option<Seq<char>>
    decreases s.len(),
{
    if s.len() == 0 {
        None
    } else if s.last() == c {
        Some(Seq::empty())
    } else {
        match after_last(s.drop_last(), c) {
            Some(rest) => Some(rest.push(s.last())),
            None => None,
        }
    }
}

/// What follows the last `c`.
pub fn behind_last(chars: &[char], c: char) -> (rest: Option<&[char]>)
    ensures
        match rest {
            Some(rest) => after_last(chars@, c) == Some(rest@),
            None => after_last(chars@, c) is None,
        },
{
    let mut n: usize = chars.len();
    while n > 0 && chars[n - 1] != c
        invariant
            n <= chars.len(),
            forall|k: int| n <= k < chars@.len() ==> #[trigger] chars@[k] != c,
        decreases n,
    {
        n -= 1;
    }
    proof {
        lemma_after_last(chars@, c, n as int);
    }
    if n == 0 {
        None
    } else {
        assert(chars@.subrange(n as int, chars@.len() as int) =~= chars@.skip(n as int));
        Some(&chars[n..chars.len()])
    }
}

/// Where `c` last stands right before `n`, what follows it starts at `n`.
pub proof fn lemma_after_last(s: Seq<char>, c: char, n: int)
    requires
        0 <= n <= s.len(),
        forall|k: int| n <= k < s.len() ==> #[trigger] s[k] != c,
        n > 0 ==> s[n - 1] == c,
    ensures
        after_last(s, c) == if n == 0 {
            None
        } else {
            Some(s.skip(n))
        },
    decreases s.len(),
{
    if s.len() > 0 {
        if n == s.len() {
            assert(s.skip(n) =~= Seq::<char>::empty());
        } else {
            assert(s[s.len() - 1] != c);
            assert forall|k: int| n <= k < s.drop_last().len() implies #[trigger] s.drop_last()[k]
                != c by {
                assert(s[k] != c);
            }
            lemma_after_last(s.drop_last(), c, n);
            if n > 0 {
                assert(s.drop_last().skip(n).push(s.last()) =~= s.skip(n));
            }
        }
    }
}

/// Whether a character is an ASCII digit.
pub open spec fn is_digit(c: char) -> bool {
    '0' <= c <= '9'
}

/// How many digits `s` starts with.
pub open spec fn digit_run(s: Seq<char>) -> int
    decreases s.len(),
{
    if s.len() == 0 || !is_digit(s[0]) {
        0
    } else {
        1 + digit_run(s.drop_first())
    }
}

/// The first run of digits in `s`; empty where it holds none.
pub open spec fn first_number(s: Seq<char>) -> Seq<char>
    decreases s.len(),
{
    if s.len() == 0 {
        s
    } else if is_digit(s[0]) {
        s.take(digit_run(s))
    } else {
        first_number(s.drop_first())
    }
}

/// The first run of digits.
pub fn first_digits(chars: &[char]) -> (digits: &[char])
    ensures
        digits@ == first_number(chars@),
{
    let mut i: usize = 0;
    assert(chars@.skip(0) =~= chars@);
    while i < chars.len() && !('0' <= chars[i] && chars[i] <= '9')
        invariant
            i <= chars.len(),
            first_number(chars@) == first_number(chars@.skip(i as int)),
        decreases chars.len() - i,
    {
        assert(chars@.skip(i as int).drop_first() =~= chars@.skip(i + 1));
        i += 1;
    }
    let ghost rest = chars@.skip(i as int);
    let mut n: usize = i;
    assert(rest.skip(0) =~= rest);
    while n < chars.len() && '0' <= chars[n] && chars[n] <= '9'
        invariant
            i <= n <= chars.len(),
            rest == chars@.skip(i as int),
            digit_run(rest) == n - i + digit_run(rest.skip(n - i)),
        decreases chars.len() - n,
    {
        assert(rest.skip(n - i)[0] == chars@[n as int]);
        assert(rest.skip(n - i).drop_first() =~= rest.skip(n + 1 - i));
        n += 1;
    }
    proof {
        if n < chars@.len() {
            assert(rest.skip(n - i)[0] == chars@[n as int]);
        }
        assert(chars@.subrange(i as int, n as int) =~= rest.take(n - i));
        if i == chars@.len() {
            assert(rest =~= rest.take(0));
        }
    }
    &chars[i..n]
}

/// Whether `pattern` stands anywhere in `s`.
pub open spec fn contains_text(s: Seq<char>, pattern: Seq<char>) -> bool {
    split_at_text(s, pattern, 0) is Some
}

/// Whether a text holds `pattern`.
pub fn holds(chars: &[char], pattern: &str) -> (found: bool)
    ensures
        found == contains_text(chars@, pattern@),
{
    parted_by(chars, pattern).is_some()
}

/// What stands before and after the last `pattern` up to `from` in `s`.
pub open spec fn rsplit_at_text(s: Seq<char>, pattern: Seq<char>, from: int) -> Option<
    (Seq<char>, Seq<char>),
>
    decreases from + 1,
{
    if from < 0 {
        None
    } else if stands_at(s, pattern, from) {
        Some((s.take(from), s.skip((from + pattern.len()) as int)))
    } else {
        rsplit_at_text(s, pattern, from - 1)
    }
}

/// What stands before and after the last `pattern` in `s`.
pub open spec fn rsplit_once(s: Seq<char>, pattern: Seq<char>) -> Option<(Seq<char>, Seq<char>)> {
    rsplit_at_text(s, pattern, s.len() as int)
}

/// What stands after the last `pattern`.
pub fn behind_last_text<'a>(chars: &'a [char], pattern: &str) -> (rest: Option<&'a [char]>)
    ensures
        match rest {
            Some(rest) => rsplit_once(chars@, pattern@) is Some && (rsplit_once(
                chars@,
                pattern@,
            )->0).1 == rest@,
            None => rsplit_once(chars@, pattern@) is None,
        },
{
    let wanted = chars_of(pattern);
    let n: usize = wanted.len();
    let mut i: usize = chars.len();
    loop
        invariant
            wanted@ == pattern@,
            n == wanted@.len(),
            i <= chars.len(),
            rsplit_once(chars@, pattern@) == rsplit_at_text(chars@, pattern@, i as int),
        decreases i,
    {
        if chars.len() - i >= n && same_chars(&chars[i..i + n], &wanted) {
            assert(chars@.subrange(i + n, chars@.len() as int) =~= chars@.skip(i + n));
            return Some(&chars[i + n..chars.len()]);
        }
        if i == 0 {
            assert(rsplit_at_text(chars@, pattern@, -1) is None);
            return None;
        }
        i -= 1;
    }
}

/// An ASCII capital in lower case, and anything else as it is.
pub open spec fn ascii_lower(c: char) -> char {
    if 'A' <= c <= 'Z' {
        (c as u8 + 32) as char
    } else {
        c
    }
}

/// A text with its ASCII capitals in lower case.
pub open spec fn ascii_lowered(s: Seq<char>) -> Seq<char> {
    s.map_values(|c: char| ascii_lower(c))
}

/// A text with its ASCII capitals in lower case.
pub fn lowered(chars: &[char]) -> (out: Vec<char>)
    ensures
        out@ == ascii_lowered(chars@),
{
    let mut out: Vec<char> = Vec::new();
    for i in 0..chars.len()
        invariant
            out@ == ascii_lowered(chars@.take(i as int)),
    {
        assert(chars@.take(i + 1).drop_last() =~= chars@.take(i as int));
        let c = chars[i];
        if 'A' <= c && c <= 'Z' {
            out.push((c as u8 + 32) as char);
        } else {
            out.push(c);
        }
        assert(out@ =~= ascii_lowered(chars@.take(i + 1)));
    }
    assert(chars@.take(chars@.len() as int) =~= chars@);
    out
}

/// `s` without the characters `c` at its start.
pub open spec fn trim_start_of(s: Seq<char>, c: char) -> Seq<char>
    decreases s.len(),
{
    if s.len() > 0 && s[0] == c {
        trim_start_of(s.drop_first(), c)
    } else {
        s
    }
}

/// A text without the characters `c` at its start.
pub fn trimmed_start_of(chars: &[char], c: char) -> (out: &[char])
    ensures
        out@ == trim_start_of(chars@, c),
{
    let mut i: usize = 0;
    assert(chars@.skip(0) =~= chars@);
    while i < chars.len() && chars[i] == c
        invariant
            i <= chars@.len(),
            trim_start_of(chars@, c) == trim_start_of(chars@.skip(i as int), c),
        decreases chars@.len() - i,
    {
        assert(chars@.skip(i as int).drop_first() =~= chars@.skip(i + 1));
        i += 1;
    }
    assert(chars@.subrange(i as int, chars@.len() as int) =~= chars@.skip(i as int));
    &chars[i..chars.len()]
}

/// `str::to_lowercase`'s result.
pub uninterp spec fn lowercase(s: Seq<char>) -> Seq<char>;

/// `str::to_lowercase`: the text in lower case, which follows from the text
/// alone, by the Unicode tables and no locale.
#[verifier::external_body]
pub(crate) fn in_lowercase(s: &str) -> (lower: String)
    ensures
        lower@ == lowercase(s@),
{
    s.to_lowercase()
}

/// A number that is written in decimal reads back, and has no needless zero in front.
pub proof fn law_decimal_reads_back(n: nat)
    ensures
        digits_value(decimal(n), 10) == Some(n as int),
        unsigned_in(decimal(n), 10, n as int) == Some(n as int),
        decimal(n).len() > 0,
        n > 0 ==> decimal(n)[0] != '0',
    decreases n,
{
    let digits = decimal(n);
    let last = (n % 10) as int;
    assert(digit_value(digit(last, false), 10) == Some(last));
    if n < 10 {
        assert(digits.drop_last() =~= Seq::<char>::empty());
        assert(digits_value(digits.drop_last(), 10) == Some(0int));
    } else {
        law_decimal_reads_back(n / 10);
        assert(digits.drop_last() =~= decimal(n / 10));
        assert(digits[0] == decimal(n / 10)[0]);
    }
    lemma_no_plus(digits, 10);
}

proof fn lemma_no_plus(s: Seq<char>, radix: int)
    requires
        s.len() > 0,
        radix <= 36,
        digits_value(s, radix) is Some,
    ensures
        s[0] != '+',
    decreases s.len(),
{
    if s.len() > 1 {
        lemma_no_plus(s.drop_last(), radix);
        assert(s.drop_last()[0] == s[0]);
    }
}

/// A number that is written in hexadecimal reads back, whatever zeros pad it and in
/// either case, and is at least as wide as was asked for.
pub proof fn law_hex_reads_back(n: nat, width: nat, upper: bool)
    ensures
        digits_value(hex(n, width, upper), 16) == Some(n as int),
        unsigned_in(hex(n, width, upper), 16, n as int) == Some(n as int),
        hex(n, width, upper).len() > 0,
        hex(n, width, upper).len() >= width,
    decreases n + width,
{
    let digits = hex(n, width, upper);
    let last = (n % 16) as int;
    assert(digit_value(digit(last, upper), 16) == Some(last));
    if n < 16 && width <= 1 {
        assert(digits.drop_last() =~= Seq::<char>::empty());
        assert(digits_value(digits.drop_last(), 16) == Some(0int));
    } else {
        let narrower = if width == 0 {
            0
        } else {
            (width - 1) as nat
        };
        law_hex_reads_back(n / 16, narrower, upper);
        assert(digits.drop_last() =~= hex(n / 16, narrower, upper));
    }
    lemma_no_plus(digits, 16);
}

/// What is trimmed off the end of a text are the characters that were named, all of
/// them that stand there and nothing else.
pub proof fn law_only_the_end_is_trimmed(s: Seq<char>, c: char)
    ensures
        trim_end_of(s.push(c), c) == trim_end_of(s, c),
        s.len() > 0 && s.last() != c ==> trim_end_of(s, c) == s,
        is_white(c) ==> trim_end(s.push(c)) == trim_end(s),
        s.len() > 0 && !is_white(s.last()) ==> trim_end(s) == s,
        is_white(c) ==> trim_start(seq![c] + s) == trim_start(s),
        s.len() > 0 && !is_white(s[0]) ==> trim_start(s) == s,
{
    assert(s.push(c).drop_last() =~= s);
    assert((seq![c] + s).drop_first() =~= s);
}

/// A text is parted at the first of a character: what stands before holds none of it,
/// and the two parts and the character make up the text.
pub proof fn law_a_text_is_parted_at_the_first(s: Seq<char>, c: char)
    ensures
        match split_once(s, c) {
            Some((before, after)) => before + seq![c] + after == s && !before.contains(c),
            None => !s.contains(c),
        },
{
    lemma_find(s, c);
    let at = find(s, c);
    if at < s.len() {
        assert(s.take(at) + seq![c] + s.skip(at + 1) =~= s);
        assert(!s.take(at).contains(c));
    }
}

proof fn lemma_split_at(s: Seq<char>, pattern: Seq<char>, from: int, at: int)
    requires
        0 <= from <= at,
        stands_at(s, pattern, at),
    ensures
        split_at_text(s, pattern, from) is Some,
    decreases at - from,
{
    if from < at && !stands_at(s, pattern, from) {
        lemma_split_at(s, pattern, from + 1, at);
    }
}

proof fn lemma_split_found(s: Seq<char>, pattern: Seq<char>, from: int)
    requires
        0 <= from,
    ensures
        split_at_text(s, pattern, from) matches Some((before, after)) ==> stands_at(
            s,
            pattern,
            before.len() as int,
        ) && before + pattern + after == s && from <= before.len(),
    decreases s.len() - from + 1,
{
    if from + pattern.len() <= s.len() {
        if stands_at(s, pattern, from) {
            let before = s.take(from);
            let after = s.skip((from + pattern.len()) as int);
            assert(before + pattern + after =~= s) by {
                assert(s.subrange(from, from + pattern.len()) == pattern);
                assert forall|i: int| from <= i < from + pattern.len() implies s[i] == pattern[i
                    - from] by {
                    assert(s.subrange(from, from + pattern.len())[i - from] == s[i]);
                }
            }
        } else {
            lemma_split_found(s, pattern, from + 1);
        }
    }
}

/// A text holds another exactly where that stands somewhere in it.
pub proof fn law_a_text_holds_what_stands_in_it(before: Seq<char>, part: Seq<char>, after: Seq<char>)
    ensures
        contains_text(before + part + after, part),
        contains_text(before, part) == exists|at: int| #[trigger] stands_at(before, part, at),
{
    let s = before + part + after;
    let at = before.len() as int;
    assert(s.subrange(at, at + part.len()) =~= part);
    lemma_split_at(s, part, 0, at);
    lemma_split_found(before, part, 0);
    if exists|at: int| #[trigger] stands_at(before, part, at) {
        let at = choose|at: int| #[trigger] stands_at(before, part, at);
        lemma_split_at(before, part, 0, at);
    }
}

/// Words are parted by white space: a word goes up to it, and how much of it there is
/// does not matter.
pub proof fn law_words_are_parted_by_white_space(word: Seq<char>, space: char, rest: Seq<char>)
    requires
        is_white(space),
        word.len() > 0,
        forall|i: int| 0 <= i < word.len() ==> !is_white(#[trigger] word[i]),
    ensures
        words(word + seq![space] + rest) == seq![word] + words(rest),
        words(seq![space] + rest) == words(rest),
        words(word) == seq![word],
        words(Seq::empty()) == Seq::<Seq<char>>::empty(),
{
    let s = word + seq![space] + rest;
    assert(s[0] == word[0]);
    assert(trim_start(s) == s);
    lemma_word_is(s, word.len() as int);
    assert(s.take(word.len() as int) =~= word);
    let tail = s.skip(word.len() as int);
    assert(tail =~= seq![space] + rest);
    assert(tail.drop_first() =~= rest);
    assert(trim_start(tail) == trim_start(rest));
    assert(words(tail) == words(rest));
    assert(trim_start(word) == word);
    lemma_word_is(word, word.len() as int);
    assert(word.take(word.len() as int) =~= word);
    assert(word.skip(word.len() as int) =~= Seq::<char>::empty());
    assert(words(Seq::<char>::empty()) =~= Seq::<Seq<char>>::empty());
    assert(words(word) =~= seq![word]);
}

proof fn lemma_word_is(s: Seq<char>, n: int)
    requires
        0 <= n <= s.len(),
        forall|i: int| 0 <= i < n ==> !is_white(#[trigger] s[i]),
        n < s.len() ==> is_white(s[n]),
    ensures
        word_len(s) == n,
{
    lemma_word_len(s);
    if word_len(s) < n {
        assert(!is_white(s[word_len(s)]));
    }
    if n < word_len(s) {
        assert(!is_white(s[n]));
    }
}

/// Lines are parted by newlines, and a carriage return before one goes with it.
pub proof fn law_lines_are_parted_by_newlines(line: Seq<char>, rest: Seq<char>)
    requires
        !line.contains('\n'),
        line.len() == 0 || line.last() != '\r',
    ensures
        lines(line + seq!['\n'] + rest) == seq![line] + lines(rest),
        lines(line + seq!['\r', '\n'] + rest) == seq![line] + lines(rest),
        line.len() > 0 ==> lines(line) == seq![line],
        lines(Seq::empty()) == Seq::<Seq<char>>::empty(),
{
    assert forall|i: int| 0 <= i < line.len() implies #[trigger] line[i] != '\n' by {
        if line[i] == '\n' {
            assert(line.contains(line[i]));
        }
    }
    let n = line.len() as int;
    let one = line + seq!['\n'] + rest;
    lemma_found(one, '\n', n);
    assert(one.take(n) =~= line);
    assert(one.skip(n + 1) =~= rest);
    let two = line + seq!['\r', '\n'] + rest;
    assert forall|i: int| 0 <= i < n + 1 implies #[trigger] two[i] != '\n' by {
        if i < n {
            assert(two[i] == line[i]);
        }
    }
    lemma_found(two, '\n', n + 1);
    assert(two.take(n + 1).drop_last() =~= line);
    assert(two.skip(n + 2) =~= rest);
    lemma_found(line, '\n', n);
}

proof fn lemma_join_first(parts: Seq<Seq<char>>, between: Seq<char>)
    requires
        parts.len() > 1,
    ensures
        join(parts, between) == parts[0] + between + join(parts.drop_first(), between),
    decreases parts.len(),
{
    if parts.len() == 2 {
        assert(parts.drop_last() =~= seq![parts[0]]);
        assert(parts.drop_first() =~= seq![parts[1]]);
        assert(join(seq![parts[0]], between) == parts[0]);
    } else {
        lemma_join_first(parts.drop_last(), between);
        assert(parts.drop_last().drop_first() =~= parts.drop_first().drop_last());
        let middle = join(parts.drop_first().drop_last(), between);
        assert(join(parts, between) =~= parts[0] + between + (middle + between + parts.last()));
    }
}

/// A text that is split is put together again by joining, and parts that do not hold
/// the character between them come out of a join as they went in.
pub proof fn law_splitting_undoes_joining(parts: Seq<Seq<char>>, c: char)
    requires
        parts.len() > 0,
        forall|i: int| 0 <= i < parts.len() ==> !(#[trigger] parts[i]).contains(c),
    ensures
        split(join(parts, seq![c]), c) == parts,
    decreases parts.len(),
{
    let first = parts[0];
    let n = first.len() as int;
    assert(!parts[0].contains(c));
    assert forall|i: int| 0 <= i < n implies #[trigger] first[i] != c by {
        if first[i] == c {
            assert(first.contains(first[i]));
        }
    }
    if parts.len() == 1 {
        lemma_found(first, c, n);
        assert(split(first, c) =~= parts);
    } else {
        lemma_join_first(parts, seq![c]);
        let tail = parts.drop_first();
        assert forall|i: int| 0 <= i < tail.len() implies !(#[trigger] tail[i]).contains(c) by {
            assert(tail[i] == parts[i + 1]);
        }
        law_splitting_undoes_joining(tail, c);
        let rest = join(tail, seq![c]);
        let s = join(parts, seq![c]);
        assert(s == first + seq![c] + rest);
        lemma_found(s, c, n);
        assert(s.take(n) =~= first);
        assert(s.skip(n + 1) =~= rest);
        assert(split(s, c) =~= parts);
    }
}

/// Words that are joined by blanks are read back as they were.
pub proof fn law_words_read_back(parts: Seq<Seq<char>>)
    requires
        forall|i: int| 0 <= i < parts.len() ==> is_word(#[trigger] parts[i]),
    ensures
        words(join(parts, seq![' '])) == parts,
    decreases parts.len(),
{
    let s = join(parts, seq![' ']);
    if parts.len() == 0 {
        assert(words(s) =~= parts);
    } else {
        assert(is_word(parts[0]));
        let tail = parts.drop_first();
        law_words_are_parted_by_white_space(parts[0], ' ', join(tail, seq![' ']));
        if parts.len() == 1 {
            assert(words(s) =~= parts);
        } else {
            assert forall|i: int| 0 <= i < tail.len() implies is_word(#[trigger] tail[i]) by {
                assert(tail[i] == parts[i + 1]);
            }
            lemma_join_first(parts, seq![' ']);
            law_words_read_back(tail);
            assert(words(s) =~= parts);
        }
    }
}

/// Whether a text is one word: not empty, and without white space.
pub open spec fn is_word(s: Seq<char>) -> bool {
    s.len() > 0 && forall|i: int| 0 <= i < s.len() ==> !is_white(#[trigger] s[i])
}

/// A character that is taken out is taken out everywhere, and nothing else is.
pub proof fn law_only_that_character_is_taken_out(s: Seq<char>, d: char, c: char)
    ensures
        without(s.push(c), c) == without(s, c),
        d != c ==> without(s.push(d), c) == without(s, c).push(d),
        without(Seq::empty(), c) == Seq::<char>::empty(),
{
    assert(s.push(c).drop_last() =~= s);
    assert(s.push(d).drop_last() =~= s);
}

/// A replacement touches the characters that it is about, and leaves every other in
/// its place.
pub proof fn law_only_that_character_is_replaced(s: Seq<char>, from: char, to: char, i: int)
    requires
        0 <= i < s.len(),
    ensures
        replaced(s, from, to).len() == s.len(),
        s[i] == from ==> replaced(s, from, to)[i] == to,
        s[i] != from ==> replaced(s, from, to)[i] == s[i],
{
}

/// A number with its sign reads back as itself, over the whole range.
pub proof fn law_a_signed_number_reads_back(n: i64)
    ensures
        signed_in(signed_decimal(n as int)) == Some(n as int),
{
    reveal_strlit("-");
    let size = if n < 0 {
        (-(n as int)) as nat
    } else {
        n as nat
    };
    law_decimal_reads_back(size);
    lemma_no_plus(decimal(size), 10);
    if n < 0 {
        assert(signed_decimal(n as int).drop_first() =~= decimal(size));
    } else {
        lemma_decimal_is_digits(size);
        assert(is_digit(decimal(size)[0]));
    }
}

/// A number is written in digits alone.
pub proof fn lemma_decimal_is_digits(n: nat)
    ensures
        decimal(n).len() > 0,
        forall|i: int| 0 <= i < decimal(n).len() ==> is_digit(#[trigger] decimal(n)[i]),
    decreases n,
{
    if n >= 10 {
        lemma_decimal_is_digits(n / 10);
    }
}

/// The first number of a text is its first run of digits, whole.
pub proof fn law_the_first_number_is_taken_whole(
    before: Seq<char>,
    digits: Seq<char>,
    after: Seq<char>,
)
    requires
        forall|i: int| 0 <= i < before.len() ==> !is_digit(#[trigger] before[i]),
        forall|i: int| 0 <= i < digits.len() ==> is_digit(#[trigger] digits[i]),
        digits.len() > 0,
        after.len() == 0 || !is_digit(after[0]),
    ensures
        first_number(before + digits + after) == digits,
    decreases before.len(),
{
    let s = before + digits + after;
    if before.len() == 0 {
        lemma_digit_run_is(digits, after);
        assert(s =~= digits + after);
        assert(s[0] == digits[0]);
        assert(s.take(digits.len() as int) =~= digits);
    } else {
        assert(s[0] == before[0]);
        assert(s.drop_first() =~= before.drop_first() + digits + after);
        law_the_first_number_is_taken_whole(before.drop_first(), digits, after);
    }
}

proof fn lemma_digit_run_is(digits: Seq<char>, after: Seq<char>)
    requires
        forall|i: int| 0 <= i < digits.len() ==> is_digit(#[trigger] digits[i]),
        after.len() == 0 || !is_digit(after[0]),
    ensures
        digit_run(digits + after) == digits.len(),
    decreases digits.len(),
{
    let s = digits + after;
    if digits.len() == 0 {
        assert(s =~= after);
    } else {
        assert(s[0] == digits[0]);
        assert(s.drop_first() =~= digits.drop_first() + after);
        lemma_digit_run_is(digits.drop_first(), after);
    }
}

proof fn lemma_rsplit(s: Seq<char>, pattern: Seq<char>, from: int, at: int)
    requires
        0 <= at <= from <= s.len(),
        stands_at(s, pattern, at),
        forall|i: int| at < i <= from ==> !#[trigger] stands_at(s, pattern, i),
    ensures
        rsplit_at_text(s, pattern, from) == Some(
            (s.take(at), s.skip((at + pattern.len()) as int)),
        ),
    decreases from,
{
    if at < from {
        lemma_rsplit(s, pattern, from - 1, at);
    }
}

/// A text that is parted at the last of its separators is parted where none follows.
pub proof fn law_a_text_is_parted_at_the_last(s: Seq<char>, pattern: Seq<char>, at: int)
    requires
        stands_at(s, pattern, at),
        forall|i: int| at < i ==> !#[trigger] stands_at(s, pattern, i),
    ensures
        rsplit_once(s, pattern) == Some((s.take(at), s.skip((at + pattern.len()) as int))),
{
    lemma_rsplit(s, pattern, s.len() as int, at);
}

/// A prefix or a suffix comes off exactly where it is one, and leaves the rest whole.
pub proof fn law_only_the_affix_comes_off(s: Seq<char>, affix: Seq<char>)
    ensures
        strip_prefix(affix + s, affix) == Some(s),
        strip_suffix(s + affix, affix) == Some(s),
        strip_prefix(s, affix) matches Some(rest) ==> affix + rest == s,
        strip_suffix(s, affix) matches Some(rest) ==> rest + affix == s,
{
    assert(affix.is_prefix_of(affix + s));
    assert((affix + s).skip(affix.len() as int) =~= s);
    assert((s + affix).take(s.len() as int) =~= s);
    assert(affix.is_suffix_of(s + affix)) by {
        assert(affix =~= (s + affix).subrange(s.len() as int, (s + affix).len() as int));
    }
    if affix.is_prefix_of(s) {
        assert(affix =~= s.subrange(0, affix.len() as int));
        assert(affix + s.skip(affix.len() as int) =~= s);
    }
    if affix.is_suffix_of(s) {
        assert(affix =~= s.subrange(s.len() - affix.len(), s.len() as int));
        assert(s.take(s.len() - affix.len()) + affix =~= s);
    }
}

/// A text is parted where the separator stands first.
pub proof fn lemma_first_stands(s: Seq<char>, pattern: Seq<char>, from: int, at: int)
    requires
        0 <= from <= at,
        stands_at(s, pattern, at),
        forall|i: int| from <= i < at ==> !#[trigger] stands_at(s, pattern, i),
    ensures
        split_at_text(s, pattern, from) == Some(
            (s.take(at), s.skip((at + pattern.len()) as int)),
        ),
    decreases at - from,
{
    if from < at {
        assert(!stands_at(s, pattern, from));
        lemma_first_stands(s, pattern, from + 1, at);
    }
}

/// A text without the character has nothing taken out.
pub proof fn lemma_nothing_taken_out(s: Seq<char>, c: char)
    requires
        forall|i: int| 0 <= i < s.len() ==> #[trigger] s[i] != c,
    ensures
        without(s, c) == s,
    decreases s.len(),
{
    if s.len() > 0 {
        lemma_nothing_taken_out(s.drop_last(), c);
        assert(s.drop_last().push(s.last()) =~= s);
    } else {
        assert(without(s, c) =~= s);
    }
}

} // verus!
