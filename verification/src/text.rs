//! Text as sequences of characters: lines, decimal numbers, padding.

use vstd::prelude::*;

verus! {

/// `String::push` appends one character at the end.
pub assume_specification[ String::push ](s: &mut String, c: char)
    ensures
        final(s)@ == old(s)@.push(c),
;

/// The texts of a list of strings.
pub open spec fn texts(v: Seq<String>) -> Seq<Seq<char>> {
    Seq::new(v.len(), |i: int| v[i]@)
}

/// The text of an optional string.
pub open spec fn opt_text(s: Option<String>) -> Option<Seq<char>> {
    match s {
        Some(s) => Some(s@),
        None => None,
    }
}

/// The characters of `s`, in order.
pub fn chars_of(s: &str) -> (v: Vec<char>)
    ensures
        v@ == s@,
{
    let mut v: Vec<char> = Vec::new();
    for c in it: s.chars()
        invariant
            v@ == it.seq().take(it.index()),
            it.seq() == s@,
    {
        v.push(c);
    }
    v
}

/// The string that holds the characters `v[from..to]`.
pub fn string_of(v: &Vec<char>, from: usize, to: usize) -> (s: String)
    requires
        from <= to <= v.len(),
    ensures
        s@ == v@.subrange(from as int, to as int),
{
    let mut s = String::new();
    let mut i: usize = from;
    while i < to
        invariant
            from <= i <= to <= v.len(),
            s@ == v@.subrange(from as int, i as int),
        decreases to - i,
    {
        s.push(v[i]);
        i += 1;
    }
    s
}

// ---------------------------------------------------------------------------
// Lines
// ---------------------------------------------------------------------------

/// The position of the first `c` at or after `from`, or the length of `t`
/// where there is none.
pub open spec fn find_char(t: Seq<char>, c: char, from: int) -> int
    decreases t.len() - from,
{
    if from < 0 || from >= t.len() {
        t.len() as int
    } else if t[from] == c {
        from
    } else {
        find_char(t, c, from + 1)
    }
}

/// The position of the first line feed at or after `from`, or the length of
/// `t` where there is none.
pub open spec fn line_end(t: Seq<char>, from: int) -> int {
    find_char(t, '\n', from)
}

/// The line that runs from `from` to its end at `end`, without its
/// terminator: a line feed, or a carriage return followed by a line feed.
pub open spec fn line_text(t: Seq<char>, from: int, end: int) -> Seq<char> {
    if from < end < t.len() && t[end - 1] == '\r' {
        t.subrange(from, end - 1)
    } else {
        t.subrange(from, end)
    }
}

/// The lines of `t` that start at or after position `from`.
pub open spec fn lines_from(t: Seq<char>, from: int) -> Seq<Seq<char>>
    decreases t.len() - from,
{
    if from < 0 || from >= t.len() {
        Seq::empty()
    } else {
        let end = line_end(t, from);
        if from <= end < t.len() {
            seq![line_text(t, from, end)] + lines_from(t, end + 1)
        } else {
            seq![line_text(t, from, end)]
        }
    }
}

/// The lines of a text. A line ends at a line feed or at the end of the text;
/// a carriage return directly before the line feed belongs to the terminator.
/// A text that ends in a line feed has no empty last line.
pub open spec fn lines_of(t: Seq<char>) -> Seq<Seq<char>> {
    lines_from(t, 0)
}

/// The text made of each line followed by a line feed.
pub open spec fn joined(lines: Seq<Seq<char>>) -> Seq<char>
    decreases lines.len(),
{
    if lines.len() == 0 {
        Seq::empty()
    } else {
        joined(lines.drop_last()) + lines.last() + seq!['\n']
    }
}

/// A position with no `c` between `from` and itself finds the same `c` as
/// `from` does.
pub proof fn lemma_find_char_skip(t: Seq<char>, c: char, from: int, i: int)
    requires
        0 <= from <= i <= t.len(),
        forall|k: int| from <= k < i ==> t[k] != c,
    ensures
        find_char(t, c, from) == find_char(t, c, i),
    decreases i - from,
{
    if from < i {
        lemma_find_char_skip(t, c, from + 1, i);
    }
}

/// The position of the first `c` in `v`, or the length of `v`.
pub fn position_of(v: &Vec<char>, c: char) -> (r: usize)
    ensures
        r == find_char(v@, c, 0),
        r <= v.len(),
{
    let mut i: usize = 0;
    while i < v.len()
        invariant
            i <= v.len(),
            forall|k: int| 0 <= k < i ==> v@[k] != c,
        decreases v.len() - i,
    {
        if v[i] == c {
            proof {
                lemma_find_char_skip(v@, c, 0, i as int);
            }
            return i;
        }
        i += 1;
    }
    proof {
        lemma_find_char_skip(v@, c, 0, i as int);
    }
    i
}

/// `find_char` lies between its start and the end of the text, marks a `c`
/// where it is inside the text, and no `c` comes before it.
pub proof fn lemma_find_char(t: Seq<char>, c: char, from: int)
    requires
        0 <= from <= t.len(),
    ensures
        from <= find_char(t, c, from) <= t.len(),
        find_char(t, c, from) < t.len() ==> t[find_char(t, c, from)] == c,
        forall|k: int| from <= k < find_char(t, c, from) ==> t[k] != c,
    decreases t.len() - from,
{
    if from < t.len() && t[from] != c {
        lemma_find_char(t, c, from + 1);
    }
}

/// Searching a text from a position is searching what follows an earlier
/// position.
pub proof fn lemma_find_char_shift(t: Seq<char>, c: char, from: int, i: int)
    requires
        0 <= from <= i <= t.len(),
    ensures
        find_char(t, c, i) == from + find_char(t.skip(from), c, i - from),
    decreases t.len() - i,
{
    if i < t.len() {
        assert(t.skip(from)[i - from] == t[i]);
        if t[i] != c {
            lemma_find_char_shift(t, c, from, i + 1);
        }
    }
}

/// The lines from a position on are the lines of what follows an earlier
/// position.
pub proof fn lemma_lines_from_shift(t: Seq<char>, from: int, i: int)
    requires
        0 <= from <= i <= t.len(),
    ensures
        lines_from(t, i) == lines_from(t.skip(from), i - from),
    decreases t.len() - i,
{
    let u = t.skip(from);
    if i < t.len() {
        lemma_find_char_shift(t, '\n', from, i);
        lemma_find_char(t, '\n', i);
        let end = line_end(t, i);
        assert(line_end(u, i - from) == end - from);
        if i < end {
            assert(u[end - from - 1] == t[end - 1]);
        }
        assert(u.subrange(i - from, end - from) =~= t.subrange(i, end));
        if i < end {
            assert(u.subrange(i - from, end - from - 1) =~= t.subrange(i, end - 1));
        }
        assert(line_text(u, i - from, end - from) == line_text(t, i, end));
        if end < t.len() {
            lemma_lines_from_shift(t, from, end + 1);
        }
    }
}

/// Whether a line can stand in a text as it is: it holds no line feed and
/// does not end in a carriage return.
pub open spec fn plain_line(line: Seq<char>) -> bool {
    &&& forall|k: int| 0 <= k < line.len() ==> line[k] != '\n'
    &&& line.len() > 0 ==> line.last() != '\r'
}

/// Whether every line of a list is plain.
pub open spec fn plain_lines(lines: Seq<Seq<char>>) -> bool {
    forall|i: int| 0 <= i < lines.len() ==> plain_line(#[trigger] lines[i])
}

/// Joining starts with the first line and its line feed.
pub proof fn lemma_joined_first(line: Seq<char>, rest: Seq<Seq<char>>)
    ensures
        joined(seq![line] + rest) == line + seq!['\n'] + joined(rest),
    decreases rest.len(),
{
    let all = seq![line] + rest;
    if rest.len() == 0 {
        assert(all.drop_last() =~= Seq::<Seq<char>>::empty());
        assert(all.last() == line);
        assert(joined(all.drop_last()) =~= Seq::<char>::empty());
        assert(joined(rest) =~= Seq::<char>::empty());
        assert(joined(all) =~= line + seq!['\n'] + joined(rest));
    } else {
        assert(all.drop_last() =~= seq![line] + rest.drop_last());
        assert(all.last() == rest.last());
        lemma_joined_first(line, rest.drop_last());
        assert(joined(all) =~= line + seq!['\n'] + joined(rest));
    }
}

/// Plain lines, joined and split again, are the same lines.
pub proof fn lemma_lines_of_joined(lines: Seq<Seq<char>>)
    requires
        plain_lines(lines),
    ensures
        lines_of(joined(lines)) == lines,
    decreases lines.len(),
{
    if lines.len() == 0 {
        assert(lines_of(joined(lines)) =~= lines);
    } else {
        let line = lines[0];
        let rest = lines.drop_first();
        let t = joined(lines);
        assert(lines =~= seq![line] + rest);
        lemma_joined_first(line, rest);
        assert(t =~= line + seq!['\n'] + joined(rest));
        let end = line.len() as int;
        assert(plain_line(lines[0]));
        assert forall|k: int| 0 <= k < end implies t[k] != '\n' by {
            assert(t[k] == line[k]);
        }
        assert(t[end] == '\n');
        lemma_find_char_skip(t, '\n', 0, end);
        assert(line_end(t, 0) == end);
        assert(t.subrange(0, end) =~= line);
        if end > 0 {
            assert(t[end - 1] == line.last());
        }
        assert(line_text(t, 0, end) == line);
        lemma_lines_from_shift(t, end + 1, end + 1);
        assert(t.skip(end + 1) =~= joined(rest));
        assert(plain_lines(rest)) by {
            assert forall|i: int| 0 <= i < rest.len() implies plain_line(#[trigger] rest[i]) by {
                assert(rest[i] == lines[i + 1]);
            }
        }
        lemma_lines_of_joined(rest);
        assert(lines_of(t) =~= seq![line] + rest);
    }
}

/// No line of a text holds a line feed.
pub proof fn lemma_lines_hold_no_feed(t: Seq<char>, from: int)
    requires
        0 <= from <= t.len(),
    ensures
        forall|i: int, k: int|
            0 <= i < lines_from(t, from).len() && 0 <= k < lines_from(t, from)[i].len()
                ==> #[trigger] lines_from(t, from)[i][k] != '\n',
    decreases t.len() - from,
{
    if from < t.len() {
        lemma_find_char(t, '\n', from);
        let end = line_end(t, from);
        let first = line_text(t, from, end);
        assert forall|k: int| 0 <= k < first.len() implies first[k] != '\n' by {
            assert(first[k] == t[from + k]);
        }
        if end < t.len() {
            lemma_lines_hold_no_feed(t, end + 1);
            let rest = lines_from(t, end + 1);
            let all = lines_from(t, from);
            assert(all =~= seq![first] + rest);
            assert forall|i: int, k: int| 0 <= i < all.len() && 0 <= k < all[i].len() implies #[trigger] all[i][k]
                != '\n' by {
                if i > 0 {
                    assert(all[i] == rest[i - 1]);
                }
            }
        }
    }
}

/// Splits a text into its lines.
pub fn split_lines(content: &str) -> (lines: Vec<String>)
    ensures
        texts(lines@) == lines_of(content@),
{
    let chars = chars_of(content);
    let n = chars.len();
    let mut lines: Vec<String> = Vec::new();
    let mut start: usize = 0;
    let mut i: usize = 0;
    while i < n
        invariant
            n == chars.len(),
            chars@ == content@,
            start <= i <= n,
            forall|k: int| start <= k < i ==> chars@[k] != '\n',
            texts(lines@) + lines_from(chars@, start as int) == lines_of(chars@),
        decreases n - i,
    {
        if chars[i] == '\n' {
            let end: usize = if start < i && chars[i - 1] == '\r' {
                i - 1
            } else {
                i
            };
            let line = string_of(&chars, start, end);
            proof {
                lemma_find_char_skip(chars@, '\n', start as int, i as int);
                assert(line_end(chars@, i as int) == i);
                assert(line@ == line_text(chars@, start as int, i as int));
                assert(texts(lines@.push(line)) =~= texts(lines@) + seq![line@]);
                assert(texts(lines@) + (seq![line@] + lines_from(chars@, i + 1)) =~= (texts(lines@)
                    + seq![line@]) + lines_from(chars@, i + 1));
            }
            lines.push(line);
            start = i + 1;
        }
        i += 1;
    }
    if start < n {
        let line = string_of(&chars, start, n);
        proof {
            lemma_find_char_skip(chars@, '\n', start as int, n as int);
            assert(line@ == line_text(chars@, start as int, n as int));
            assert(texts(lines@.push(line)) =~= texts(lines@) + seq![line@]);
            assert(lines_from(chars@, start as int) =~= seq![line@]);
        }
        lines.push(line);
    } else {
        assert(lines_from(chars@, start as int) =~= Seq::<Seq<char>>::empty());
        assert(texts(lines@) + Seq::<Seq<char>>::empty() =~= texts(lines@));
    }
    lines
}

/// Appends the characters of `line` and a line feed to `out`.
pub fn push_line(out: &mut String, line: &str)
    ensures
        final(out)@ == old(out)@ + line@ + seq!['\n'],
{
    out.append(line);
    out.push('\n');
    assert(out@ =~= old(out)@ + line@ + seq!['\n']);
}

// ---------------------------------------------------------------------------
// Decimal numbers
// ---------------------------------------------------------------------------

/// Whether `c` is one of the ten ASCII digits.
pub open spec fn is_digit(c: char) -> bool {
    '0' <= c <= '9'
}

/// The value of an ASCII digit.
pub open spec fn digit_value(c: char) -> nat {
    (c as u32 - '0' as u32) as nat
}

/// Whether every character of `s` is an ASCII digit.
pub open spec fn all_digits(s: Seq<char>) -> bool {
    forall|i: int| 0 <= i < s.len() ==> is_digit(#[trigger] s[i])
}

/// The number that the digits of `s` write in base ten.
pub open spec fn decimal_value(s: Seq<char>) -> nat
    decreases s.len(),
{
    if s.len() == 0 {
        0
    } else {
        decimal_value(s.drop_last()) * 10 + digit_value(s.last())
    }
}

/// The number written by `s`: one or more ASCII digits and nothing else.
pub open spec fn unsigned_of(s: Seq<char>) -> Option<nat> {
    if s.len() > 0 && all_digits(s) {
        Some(decimal_value(s))
    } else {
        None
    }
}

/// The number written by `s`: an optional sign, `+` or `-`, and then one or
/// more ASCII digits.
pub open spec fn signed_of(s: Seq<char>) -> Option<int> {
    if s.len() > 0 && s[0] == '-' {
        match unsigned_of(s.skip(1)) {
            Some(v) => Some(-(v as int)),
            None => None,
        }
    } else if s.len() > 0 && s[0] == '+' {
        match unsigned_of(s.skip(1)) {
            Some(v) => Some(v as int),
            None => None,
        }
    } else {
        match unsigned_of(s) {
            Some(v) => Some(v as int),
            None => None,
        }
    }
}

/// A longer run of digits never writes a smaller number than its prefix.
pub proof fn lemma_decimal_value_grows(s: Seq<char>, k: int)
    requires
        0 <= k <= s.len(),
    ensures
        decimal_value(s.take(k)) <= decimal_value(s),
    decreases s.len() - k,
{
    if k == s.len() {
        assert(s.take(k) =~= s);
    } else {
        lemma_decimal_value_grows(s, k + 1);
        assert(s.take(k + 1).drop_last() =~= s.take(k));
    }
}

/// Reads the digits `v[from..]` as a number, as long as it stays at or below
/// `limit`.
fn read_digits(v: &Vec<char>, from: usize, limit: u64) -> (r: Option<u64>)
    requires
        from <= v.len(),
        9 <= limit <= 0x8000_0000_0000_0000,
    ensures
        r == match unsigned_of(v@.skip(from as int)) {
            Some(n) if n <= limit => Some(n as u64),
            _ => None::<u64>,
        },
{
    let ghost s = v@.skip(from as int);
    if from == v.len() {
        return None;
    }
    let mut acc: u64 = 0;
    let mut i: usize = from;
    while i < v.len()
        invariant
            from <= i <= v.len(),
            s == v@.skip(from as int),
            all_digits(s.take(i - from)),
            acc == decimal_value(s.take(i - from)),
            acc <= limit,
            9 <= limit <= 0x8000_0000_0000_0000,
        decreases v.len() - i,
    {
        let c = v[i];
        let ghost next = s.take(i - from + 1);
        proof {
            assert(next.drop_last() =~= s.take(i - from));
            assert(next.last() == c);
        }
        if !(c >= '0' && c <= '9') {
            proof {
                assert(s[i - from] == c);
                assert(!all_digits(s));
            }
            return None;
        }
        let d: u64 = (c as u32 - '0' as u32) as u64;
        if acc > (limit - d) / 10 {
            proof {
                assert(decimal_value(next) > limit);
                if all_digits(s) {
                    lemma_decimal_value_grows(s, i - from + 1);
                }
            }
            return None;
        }
        acc = acc * 10 + d;
        i += 1;
        proof {
            assert forall|k: int| 0 <= k < next.len() implies is_digit(#[trigger] next[k]) by {
                if k < next.len() - 1 {
                    assert(s.take(i - 1 - from)[k] == next[k]);
                }
            }
        }
    }
    proof {
        assert(s.take(i - from) =~= s);
    }
    Some(acc)
}

/// Reads an unsigned decimal number that fits in 32 bits.
pub fn parse_unsigned(s: &str) -> (r: Option<u32>)
    ensures
        r == match unsigned_of(s@) {
            Some(n) if n <= u32::MAX => Some(n as u32),
            _ => None::<u32>,
        },
{
    let v = chars_of(s);
    assert(v@.skip(0) =~= s@);
    match read_digits(&v, 0, 0xffff_ffff) {
        Some(n) => Some(n as u32),
        None => None,
    }
}

/// Reads a signed decimal number that fits in 64 bits.
pub fn parse_signed(s: &str) -> (r: Option<i64>)
    ensures
        r == match signed_of(s@) {
            Some(n) if i64::MIN <= n <= i64::MAX => Some(n as i64),
            _ => None::<i64>,
        },
{
    let v = chars_of(s);
    if v.len() > 0 && v[0] == '-' {
        match read_digits(&v, 1, 0x8000_0000_0000_0000) {
            Some(n) => {
                if n == 0x8000_0000_0000_0000 {
                    Some(i64::MIN)
                } else {
                    Some(-(n as i64))
                }
            },
            None => None,
        }
    } else if v.len() > 0 && v[0] == '+' {
        match read_digits(&v, 1, 0x7fff_ffff_ffff_ffff) {
            Some(n) => Some(n as i64),
            None => None,
        }
    } else {
        assert(v@.skip(0) =~= s@);
        match read_digits(&v, 0, 0x7fff_ffff_ffff_ffff) {
            Some(n) => Some(n as i64),
            None => None,
        }
    }
}

/// The character that writes a digit below ten.
pub open spec fn digit_char(d: nat) -> char {
    ((48 + d) as u8) as char
}

/// A number in base ten, without leading zeros.
pub open spec fn decimal_text(n: nat) -> Seq<char>
    decreases n,
{
    if n < 10 {
        seq![digit_char(n)]
    } else {
        decimal_text(n / 10).push(digit_char(n % 10))
    }
}

/// Appends `n` in base ten to `out`.
pub fn push_decimal(out: &mut String, n: u64)
    ensures
        final(out)@ == old(out)@ + decimal_text(n as nat),
    decreases n,
{
    if n >= 10 {
        push_decimal(out, n / 10);
    }
    let d: u8 = (n % 10) as u8;
    let c: char = (48 + d) as char;
    out.push(c);
    assert(out@ =~= old(out)@ + decimal_text(n as nat));
}

/// `s` with spaces before it until it is `width` characters long.
pub open spec fn padded_left(s: Seq<char>, width: nat) -> Seq<char> {
    if s.len() >= width {
        s
    } else {
        Seq::new((width - s.len()) as nat, |i: int| ' ') + s
    }
}

/// Appends `s` to `out`, right-aligned in a field of `width` characters.
pub fn push_padded_left(out: &mut String, s: &str, width: usize)
    ensures
        final(out)@ == old(out)@ + padded_left(s@, width as nat),
{
    let len = s.unicode_len();
    let pad: usize = if len < width {
        width - len
    } else {
        0
    };
    let mut i: usize = 0;
    while i < pad
        invariant
            i <= pad,
            out@ == old(out)@ + Seq::new(i as nat, |k: int| ' '),
        decreases pad - i,
    {
        out.push(' ');
        i += 1;
        assert(out@ =~= old(out)@ + Seq::new(i as nat, |k: int| ' '));
    }
    assert(out@ =~= old(out)@ + Seq::new(pad as nat, |k: int| ' '));
    out.append(s);
    assert(out@ =~= old(out)@ + padded_left(s@, width as nat));
}

/// Whether `text` ends with the characters of `end`.
pub open spec fn ends_with(text: Seq<char>, end: Seq<char>) -> bool {
    end.len() <= text.len() && text.subrange(text.len() - end.len(), text.len() as int) == end
}

/// Whether `text` ends with the characters of `end`.
pub fn text_ends_with(text: &str, end: &str) -> (r: bool)
    ensures
        r == ends_with(text@, end@),
{
    let t = chars_of(text);
    let e = chars_of(end);
    if e.len() > t.len() {
        return false;
    }
    let from: usize = t.len() - e.len();
    let ghost tail = t@.subrange(from as int, t@.len() as int);
    let mut i: usize = 0;
    while i < e.len()
        invariant
            t@ == text@,
            e@ == end@,
            from + e.len() == t.len(),
            i <= e.len(),
            tail == t@.subrange(from as int, t@.len() as int),
            forall|k: int| 0 <= k < i ==> tail[k] == e@[k],
        decreases e.len() - i,
    {
        if t[from + i] != e[i] {
            assert(tail[i as int] != e@[i as int]);
            return false;
        }
        i += 1;
    }
    assert(tail =~= e@);
    true
}

/// Whether two texts hold the same characters.
pub fn same_text(a: &str, b: &str) -> (r: bool)
    ensures
        r == (a@ == b@),
{
    let x = chars_of(a);
    let y = chars_of(b);
    if x.len() != y.len() {
        return false;
    }
    let mut i: usize = 0;
    while i < x.len()
        invariant
            x@ == a@,
            y@ == b@,
            x.len() == y.len(),
            i <= x.len(),
            forall|k: int| 0 <= k < i ==> x@[k] == y@[k],
        decreases x.len() - i,
    {
        if x[i] != y[i] {
            return false;
        }
        i += 1;
    }
    assert(x@ =~= y@);
    true
}

/// Whether a text holds neither line feed nor carriage return.
pub open spec fn unbroken(text: Seq<char>) -> bool {
    forall|k: int| 0 <= k < text.len() ==> text[k] != '\n' && text[k] != '\r'
}

/// An unbroken text is a plain line.
pub proof fn lemma_unbroken_is_plain(text: Seq<char>)
    requires
        unbroken(text),
    ensures
        plain_line(text),
{
}

/// Two unbroken texts, one after the other, are unbroken.
pub proof fn lemma_unbroken_joined(a: Seq<char>, b: Seq<char>)
    requires
        unbroken(a),
        unbroken(b),
    ensures
        unbroken(a + b),
{
}

/// A number in base ten is unbroken.
pub proof fn lemma_decimal_text_unbroken(n: nat)
    ensures
        unbroken(decimal_text(n)),
    decreases n,
{
    if n >= 10 {
        lemma_decimal_text_unbroken(n / 10);
    }
}

/// Padding an unbroken text leaves it unbroken.
pub proof fn lemma_padded_left_unbroken(s: Seq<char>, width: nat)
    requires
        unbroken(s),
    ensures
        unbroken(padded_left(s, width)),
{
}

} // verus!
