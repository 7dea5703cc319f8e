use vstd::prelude::*;

verus! {

/// The decimal digit `d` (below ten) as a character.
pub open spec fn digit_char(d: nat) -> char {
    (48 + d) as char
}

/// The decimal representation of `n`, without leading zeros.
pub open spec fn decimal(n: nat) -> Seq<char>
    decreases n,
{
    if n < 10 {
        seq![digit_char(n)]
    } else {
        decimal(n / 10).push(digit_char(n % 10))
    }
}

/// Appends one character to a string: `String::push`.
#[verifier::external_body]
pub fn push_char(s: &mut String, c: char)
    ensures
        final(s)@ == old(s)@.push(c),
{
    s.push(c)
}

/// The character of a decimal digit.
pub fn digit(d: u8) -> (c: char)
    requires
        d < 10,
    ensures
        c == digit_char(d as nat),
{
    (48u8 + d) as char
}

/// Appends the decimal representation of `n`.
pub fn push_decimal(s: &mut String, n: u128)
    ensures
        final(s)@ == old(s)@ + decimal(n as nat),
    decreases n,
{
    if n >= 10 {
        push_decimal(s, n / 10);
    }
    push_char(s, digit((n % 10) as u8));
    assert(decimal(n as nat) == if n < 10 { seq![digit_char(n as nat)] } else {
        decimal((n / 10) as nat).push(digit_char((n % 10) as nat))
    });
}

/// The decimal representation of `n` as a string.
pub fn decimal_string(n: u128) -> (s: String)
    ensures
        s@ == decimal(n as nat),
{
    let mut s = String::new();
    push_decimal(&mut s, n);
    assert(s@ =~= decimal(n as nat));
    s
}

/// Two decimal digits, with a leading zero below ten.
pub open spec fn two_digits(n: nat) -> Seq<char> {
    seq![digit_char(n / 10), digit_char(n % 10)]
}

/// An amount of cents written as units, a point and two decimals: 1204 as "12.04".
pub open spec fn cents_text(c: nat) -> Seq<char> {
    decimal(c / 100) + seq!['.'] + two_digits(c % 100)
}

/// A signed amount of cents: a minus sign before a negative amount.
pub open spec fn signed_cents_text(c: int) -> Seq<char> {
    if c < 0 {
        seq!['-'] + cents_text((-c) as nat)
    } else {
        cents_text(c as nat)
    }
}

/// `n` spaces.
pub open spec fn spaces(n: nat) -> Seq<char> {
    Seq::new(n, |i: int| ' ')
}

/// Left-aligned in a field of width `w`: spaces fill up to `w` characters.
pub open spec fn pad_right(s: Seq<char>, w: nat) -> Seq<char> {
    if s.len() < w {
        s + spaces((w - s.len()) as nat)
    } else {
        s
    }
}

/// Appends an amount of cents as units, a point and two decimals.
pub fn push_cents(s: &mut String, c: u128)
    ensures
        final(s)@ == old(s)@ + cents_text(c as nat),
{
    push_decimal(s, c / 100);
    push_char(s, '.');
    let r = c % 100;
    push_char(s, digit((r / 10) as u8));
    push_char(s, digit((r % 10) as u8));
    assert(final(s)@ =~= old(s)@ + cents_text(c as nat));
}

/// Appends `n` spaces.
pub fn push_spaces(s: &mut String, n: usize)
    ensures
        final(s)@ == old(s)@ + spaces(n as nat),
{
    let mut i: usize = 0;
    while i < n
        invariant
            0 <= i <= n,
            s@ =~= old(s)@ + spaces(i as nat),
        decreases n - i,
    {
        push_char(s, ' ');
        i = i + 1;
        assert(s@ =~= old(s)@ + spaces(i as nat));
    }
}

/// Appends `field` left-aligned in a field of width `w`.
pub fn push_padded(s: &mut String, field: &str, w: usize)
    ensures
        final(s)@ == old(s)@ + pad_right(field@, w as nat),
{
    s.append(field);
    let n = field.unicode_len();
    if n < w {
        push_spaces(s, w - n);
    }
    assert(final(s)@ =~= old(s)@ + pad_right(field@, w as nat));
}

/// Unicode's White_Space characters, those `char::is_whitespace` accepts.
pub open spec fn is_white_space(c: char) -> bool {
    let u = c as u32;
    ||| 0x09 <= u <= 0x0d
    ||| u == 0x20
    ||| u == 0x85
    ||| u == 0xa0
    ||| u == 0x1680
    ||| 0x2000 <= u <= 0x200a
    ||| u == 0x2028
    ||| u == 0x2029
    ||| u == 0x202f
    ||| u == 0x205f
    ||| u == 0x3000
}

/// Without its leading white space.
pub open spec fn trim_start(s: Seq<char>) -> Seq<char>
    decreases s.len(),
{
    if s.len() > 0 && is_white_space(s[0]) {
        trim_start(s.drop_first())
    } else {
        s
    }
}

/// Without its trailing white space.
pub open spec fn trim_end(s: Seq<char>) -> Seq<char>
    decreases s.len(),
{
    if s.len() > 0 && is_white_space(s.last()) {
        trim_end(s.drop_last())
    } else {
        s
    }
}

/// Without leading and trailing white space, as `str::trim` gives it.
pub open spec fn trim(s: Seq<char>) -> Seq<char> {
    trim_end(trim_start(s))
}

/// How many bytes UTF-8 takes for a character.
pub open spec fn utf8_width(c: char) -> nat {
    let u = c as u32;
    if u < 0x80 {
        1
    } else if u < 0x800 {
        2
    } else if u < 0x10000 {
        3
    } else {
        4
    }
}

/// How many bytes UTF-8 takes for the characters, as `str::len` counts them.
pub open spec fn utf8_len(s: Seq<char>) -> nat
    decreases s.len(),
{
    if s.len() == 0 {
        0
    } else {
        utf8_len(s.drop_last()) + utf8_width(s.last())
    }
}

pub open spec fn is_digit(c: char) -> bool {
    '0' <= c <= '9'
}

pub open spec fn all_digits(s: Seq<char>) -> bool {
    forall|i: int| 0 <= i < s.len() ==> is_digit(#[trigger] s[i])
}

/// The value of a string of decimal digits.
pub open spec fn digits_value(s: Seq<char>) -> nat
    decreases s.len(),
{
    if s.len() == 0 {
        0
    } else {
        digits_value(s.drop_last()) * 10 + (s.last() as nat - 48) as nat
    }
}

/// What `str::parse::<i64>` accepts and gives: an optional `+` or `-`, then one or
/// more decimal digits, with a value that fits in an `i64`.
pub open spec fn parse_int(s: Seq<char>) -> Option<int> {
    let negative = s.len() > 0 && s[0] == '-';
    let body = if s.len() > 0 && (s[0] == '+' || s[0] == '-') {
        s.drop_first()
    } else {
        s
    };
    if body.len() == 0 || !all_digits(body) {
        None
    } else {
        let v: int = if negative {
            -(digits_value(body) as int)
        } else {
            digits_value(body) as int
        };
        if i64::MIN <= v <= i64::MAX {
            Some(v)
        } else {
            None
        }
    }
}

/// The characters of a string.
pub fn chars_of(s: &str) -> (v: Vec<char>)
    ensures
        v@ == s@,
{
    let n = s.unicode_len();
    let mut v: Vec<char> = Vec::new();
    let mut i: usize = 0;
    while i < n
        invariant
            0 <= i <= n,
            n == s@.len(),
            v@ == s@.take(i as int),
        decreases n - i,
    {
        v.push(s.get_char(i));
        i = i + 1;
        assert(v@ =~= s@.take(i as int));
    }
    assert(s@.take(n as int) =~= s@);
    v
}

/// The characters from `lo` up to `hi`.
pub fn copy_range(v: &Vec<char>, lo: usize, hi: usize) -> (r: Vec<char>)
    requires
        lo <= hi <= v@.len(),
    ensures
        r@ == v@.subrange(lo as int, hi as int),
{
    let mut r: Vec<char> = Vec::new();
    let mut i: usize = lo;
    while i < hi
        invariant
            lo <= i <= hi,
            hi <= v@.len(),
            r@ == v@.subrange(lo as int, i as int),
        decreases hi - i,
    {
        r.push(v[i]);
        i = i + 1;
        assert(r@ =~= v@.subrange(lo as int, i as int));
    }
    r
}

proof fn lemma_trim_start_skip(s: Seq<char>, i: int)
    requires
        0 <= i < s.len(),
        is_white_space(s[i]),
    ensures
        trim_start(s.skip(i)) == trim_start(s.skip(i + 1)),
{
    assert(s.skip(i).drop_first() =~= s.skip(i + 1));
}

proof fn lemma_trim_end_take(s: Seq<char>, j: int)
    requires
        0 < j <= s.len(),
        is_white_space(s[j - 1]),
    ensures
        trim_end(s.take(j)) == trim_end(s.take(j - 1)),
{
    assert(s.take(j).drop_last() =~= s.take(j - 1));
}

pub fn is_white_space_char(c: char) -> (b: bool)
    ensures
        b == is_white_space(c),
{
    let u = c as u32;
    (0x09 <= u && u <= 0x0d) || u == 0x20 || u == 0x85 || u == 0xa0 || u == 0x1680 || (0x2000
        <= u && u <= 0x200a) || u == 0x2028 || u == 0x2029 || u == 0x202f || u == 0x205f || u
        == 0x3000
}

/// The characters without leading and trailing white space.
pub fn trim_chars(v: &Vec<char>) -> (r: Vec<char>)
    ensures
        r@ == trim(v@),
{
    let n = v.len();
    let mut i: usize = 0;
    assert(v@.skip(0) =~= v@);
    while i < n && is_white_space_char(v[i])
        invariant
            0 <= i <= n,
            n == v@.len(),
            trim_start(v@) == trim_start(v@.skip(i as int)),
        decreases n - i,
    {
        proof {
            lemma_trim_start_skip(v@, i as int);
        }
        i = i + 1;
    }
    let ghost t = v@.skip(i as int);
    assert(trim_start(v@) == t);
    let mut j: usize = n;
    assert(t.take(t.len() as int) =~= t);
    while j > i && is_white_space_char(v[j - 1])
        invariant
            i <= j <= n,
            n == v@.len(),
            t == v@.skip(i as int),
            trim_end(t) == trim_end(t.take(j - i)),
        decreases j,
    {
        proof {
            assert(t[j - 1 - i] == v@[j - 1]);
            lemma_trim_end_take(t, j - i);
        }
        j = j - 1;
    }
    let r = copy_range(v, i, j);
    assert(r@ =~= t.take(j - i));
    r
}

/// A prefix takes no more UTF-8 bytes than the whole.
pub proof fn lemma_utf8_len_prefix(s: Seq<char>, n: int)
    requires
        0 <= n <= s.len(),
    ensures
        utf8_len(s.take(n)) <= utf8_len(s),
    decreases s.len(),
{
    if n < s.len() {
        assert(s.drop_last().take(n) =~= s.take(n));
        lemma_utf8_len_prefix(s.drop_last(), n);
    } else {
        assert(s.take(n) =~= s);
    }
}

/// Whether the characters take more than `limit` bytes in UTF-8.
pub fn utf8_longer_than(v: &Vec<char>, limit: usize) -> (b: bool)
    ensures
        b == (utf8_len(v@) > limit),
{
    let mut n: u128 = 0;
    let mut i: usize = 0;
    while i < v.len()
        invariant
            0 <= i <= v@.len(),
            n == utf8_len(v@.take(i as int)),
            n <= limit,
        decreases v@.len() - i,
    {
        let u = v[i] as u32;
        let w: u128 = if u < 0x80 {
            1
        } else if u < 0x800 {
            2
        } else if u < 0x10000 {
            3
        } else {
            4
        };
        assert(v@.take(i + 1).drop_last() =~= v@.take(i as int));
        n = n + w;
        i = i + 1;
        if n > limit as u128 {
            proof {
                lemma_utf8_len_prefix(v@, i as int);
            }
            return true;
        }
    }
    assert(v@.take(v@.len() as int) =~= v@);
    false
}

/// Reads an `i64` the way `str::parse::<i64>` does.
pub fn parse_int_chars(s: &Vec<char>) -> (r: Option<i64>)
    ensures
        r matches Some(v) ==> parse_int(s@) == Some(v as int),
        r is None ==> parse_int(s@) is None,
{
    let n = s.len();
    let mut start: usize = 0;
    let mut negative = false;
    if n > 0 && (s[0] == '+' || s[0] == '-') {
        start = 1;
        negative = s[0] == '-';
    }
    let ghost body = s@.skip(start as int);
    proof {
        if start == 1 {
            assert(body =~= s@.drop_first());
        } else {
            assert(body =~= s@);
        }
    }
    if start == n {
        return None;
    }
    let bound: u64 = 0x8000_0000_0000_0000;
    let mut acc: u64 = 0;
    let mut overflow = false;
    let mut i: usize = start;
    assert(body.take(0) =~= Seq::<char>::empty());
    while i < n
        invariant
            start <= i <= n,
            n == s@.len(),
            bound == 0x8000_0000_0000_0000u64,
            body == s@.skip(start as int),
            body == (if s@.len() > 0 && (s@[0] == '+' || s@[0] == '-') {
                s@.drop_first()
            } else {
                s@
            }),
            negative == (s@.len() > 0 && s@[0] == '-'),
            all_digits(body.take(i - start)),
            !overflow ==> acc == digits_value(body.take(i - start)) && acc <= bound,
            overflow ==> digits_value(body.take(i - start)) > bound,
        decreases n - i,
    {
        let c = s[i];
        let ghost prefix = body.take(i - start);
        let ghost next = body.take(i + 1 - start);
        proof {
            assert(body[i - start] == c);
            assert(next.drop_last() =~= prefix);
        }
        if !('0' <= c && c <= '9') {
            proof {
                assert(!is_digit(body[i - start]));
            }
            proof {
                assert(!all_digits(body));
            }
            return None;
        }
        let d = (c as u32 - 48) as u64;
        if !overflow {
            if acc > (bound - d) / 10 {
                proof {
                    assert(acc * 10 + d > bound) by (nonlinear_arith)
                        requires
                            acc > (bound - d) / 10,
                            d <= 9,
                            bound == 0x8000_0000_0000_0000u64,
                    ;
                }
                overflow = true;
            } else {
                proof {
                    assert(acc * 10 + d <= bound) by (nonlinear_arith)
                        requires
                            acc <= (bound - d) / 10,
                            d <= 9,
                            bound == 0x8000_0000_0000_0000u64,
                    ;
                }
                acc = acc * 10 + d;
            }
        }
        proof {
            assert forall|k: int| 0 <= k < next.len() implies is_digit(#[trigger] next[k]) by {
                if k < prefix.len() {
                    assert(next[k] == prefix[k]);
                }
            }
        }
        i = i + 1;
    }
    proof {
        assert(body.take(n - start) =~= body);
    }
    if overflow {
        return None;
    }
    if negative {
        if acc == bound {
            Some(i64::MIN)
        } else {
            Some(-(acc as i64))
        }
    } else {
        if acc <= 0x7fff_ffff_ffff_ffff {
            Some(acc as i64)
        } else {
            None
        }
    }
}

/// The words of a text, as `str::split_whitespace` gives them, and whether the
/// last one is still open: the maximal runs of characters other than white space.
pub open spec fn split_words(s: Seq<char>) -> (Seq<Seq<char>>, bool)
    decreases s.len(),
{
    if s.len() == 0 {
        (Seq::empty(), false)
    } else {
        let (words, open) = split_words(s.drop_last());
        let c = s.last();
        if is_white_space(c) {
            (words, false)
        } else if open {
            (words.update(words.len() - 1, words.last().push(c)), true)
        } else {
            (words.push(seq![c]), true)
        }
    }
}

/// The words of a text: its maximal runs of characters other than white space.
pub open spec fn words(s: Seq<char>) -> Seq<Seq<char>> {
    split_words(s).0
}

proof fn lemma_split_words_open(s: Seq<char>)
    ensures
        split_words(s).1 ==> split_words(s).0.len() > 0,
    decreases s.len(),
{
    if s.len() > 0 {
        lemma_split_words_open(s.drop_last());
    }
}

/// The words of a text, each as a vector of characters.
pub fn split_whitespace_chars(s: &Vec<char>) -> (ws: Vec<Vec<char>>)
    ensures
        ws@.len() == words(s@).len(),
        forall|i: int| 0 <= i < ws@.len() ==> (#[trigger] ws@[i])@ == words(s@)[i],
{
    let mut ws: Vec<Vec<char>> = Vec::new();
    let mut open = false;
    let mut i: usize = 0;
    while i < s.len()
        invariant
            0 <= i <= s@.len(),
            ws@.len() == split_words(s@.take(i as int)).0.len(),
            forall|j: int| 0 <= j < ws@.len() ==> (#[trigger] ws@[j])@ == split_words(
                s@.take(i as int),
            ).0[j],
            open == split_words(s@.take(i as int)).1,
        decreases s@.len() - i,
    {
        let c = s[i];
        proof {
            assert(s@.take(i + 1).drop_last() =~= s@.take(i as int));
            assert(s@.take(i + 1).last() == c);
            lemma_split_words_open(s@.take(i as int));
        }
        let ghost before = split_words(s@.take(i as int)).0;
        if is_white_space_char(c) {
            open = false;
        } else if open {
            let n = ws.len();
            let mut last = ws.pop().unwrap();
            last.push(c);
            ws.push(last);
            open = true;
            proof {
                let after = split_words(s@.take(i + 1)).0;
                assert forall|j: int| 0 <= j < ws@.len() implies (#[trigger] ws@[j])@ == after[j] by {
                    if j < n - 1 {
                        assert(after[j] == before[j]);
                    }
                }
            }
        } else {
            let mut word: Vec<char> = Vec::new();
            word.push(c);
            ws.push(word);
            open = true;
            proof {
                let after = split_words(s@.take(i + 1)).0;
                assert(word@ =~= seq![c]);
                assert forall|j: int| 0 <= j < ws@.len() implies (#[trigger] ws@[j])@ == after[j] by {
                    if j < ws@.len() - 1 {
                        assert(after[j] == before[j]);
                    }
                }
            }
        }
        i = i + 1;
    }
    assert(s@.take(s@.len() as int) =~= s@);
    ws
}

/// What `str::parse` accepts and gives for an unsigned integer type whose largest
/// value is `max`: an optional `+`, then one or more decimal digits, with a value up
/// to `max`.
pub open spec fn parse_unsigned(s: Seq<char>, max: nat) -> Option<nat> {
    let body = if s.len() > 0 && s[0] == '+' {
        s.drop_first()
    } else {
        s
    };
    if body.len() == 0 || !all_digits(body) {
        None
    } else if digits_value(body) <= max {
        Some(digits_value(body))
    } else {
        None
    }
}

/// Reads an unsigned integer up to `max` the way `str::parse` does.
pub fn parse_unsigned_chars(s: &Vec<char>, max: u64) -> (r: Option<u64>)
    ensures
        r matches Some(v) ==> parse_unsigned(s@, max as nat) == Some(v as nat),
        r is None ==> parse_unsigned(s@, max as nat) is None,
{
    let n = s.len();
    let mut start: usize = 0;
    if n > 0 && s[0] == '+' {
        start = 1;
    }
    let ghost body = s@.skip(start as int);
    proof {
        if start == 1 {
            assert(body =~= s@.drop_first());
        } else {
            assert(body =~= s@);
        }
    }
    if start == n {
        return None;
    }
    let mut acc: u64 = 0;
    let mut over = false;
    let mut i: usize = start;
    assert(body.take(0) =~= Seq::<char>::empty());
    while i < n
        invariant
            start <= i <= n,
            n == s@.len(),
            body == s@.skip(start as int),
            body == (if s@.len() > 0 && s@[0] == '+' {
                s@.drop_first()
            } else {
                s@
            }),
            all_digits(body.take(i - start)),
            !over ==> acc == digits_value(body.take(i - start)) && acc <= max,
            over ==> digits_value(body.take(i - start)) > max,
        decreases n - i,
    {
        let c = s[i];
        let ghost prefix = body.take(i - start);
        let ghost next = body.take(i + 1 - start);
        proof {
            assert(body[i - start] == c);
            assert(next.drop_last() =~= prefix);
        }
        if !('0' <= c && c <= '9') {
            proof {
                assert(!is_digit(body[i - start]));
                assert(!all_digits(body));
            }
            return None;
        }
        let d = (c as u32 - 48) as u64;
        if !over {
            if d > max || acc > (max - d) / 10 {
                proof {
                    if d <= max {
                        assert(acc * 10 + d > max) by (nonlinear_arith)
                            requires
                                acc > (max - d) / 10,
                                d <= max,
                        ;
                    }
                }
                over = true;
            } else {
                proof {
                    assert(acc * 10 + d <= max) by (nonlinear_arith)
                        requires
                            acc <= (max - d) / 10,
                            d <= max,
                    ;
                }
                acc = acc * 10 + d;
            }
        }
        proof {
            assert forall|k: int| 0 <= k < next.len() implies is_digit(#[trigger] next[k]) by {
                if k < prefix.len() {
                    assert(next[k] == prefix[k]);
                }
            }
        }
        i = i + 1;
    }
    proof {
        assert(body.take(n - start) =~= body);
    }
    if over {
        None
    } else {
        Some(acc)
    }
}

/// The pieces of a text between line breaks ('\n'), empty ones included.
pub open spec fn line_pieces(s: Seq<char>) -> Seq<Seq<char>>
    decreases s.len(),
{
    if s.len() == 0 {
        seq![Seq::empty()]
    } else {
        let pieces = line_pieces(s.drop_last());
        let c = s.last();
        if c == '\n' {
            pieces.push(Seq::empty())
        } else {
            pieces.update(pieces.len() - 1, pieces.last().push(c))
        }
    }
}

proof fn lemma_line_pieces_nonempty(s: Seq<char>)
    ensures
        line_pieces(s).len() > 0,
    decreases s.len(),
{
    if s.len() > 0 {
        lemma_line_pieces_nonempty(s.drop_last());
    }
}

/// The characters as a string.
pub fn string_of(v: &Vec<char>) -> (s: String)
    ensures
        s@ == v@,
{
    let mut s = String::new();
    let mut i: usize = 0;
    while i < v.len()
        invariant
            0 <= i <= v@.len(),
            s@ == v@.take(i as int),
        decreases v@.len() - i,
    {
        push_char(&mut s, v[i]);
        i = i + 1;
        assert(s@ =~= v@.take(i as int));
    }
    assert(v@.take(v@.len() as int) =~= v@);
    s
}

/// The pieces of a text between line breaks.
pub fn split_line_pieces(s: &Vec<char>) -> (pieces: Vec<Vec<char>>)
    ensures
        pieces@.len() == line_pieces(s@).len(),
        forall|i: int| 0 <= i < pieces@.len() ==> (#[trigger] pieces@[i])@ == line_pieces(s@)[i],
{
    let mut pieces: Vec<Vec<char>> = Vec::new();
    pieces.push(Vec::new());
    let mut i: usize = 0;
    proof {
        assert(s@.take(0) =~= Seq::<char>::empty());
        assert(pieces@[0]@ =~= Seq::<char>::empty());
    }
    while i < s.len()
        invariant
            0 <= i <= s@.len(),
            pieces@.len() == line_pieces(s@.take(i as int)).len(),
            forall|j: int| 0 <= j < pieces@.len() ==> (#[trigger] pieces@[j])@ == line_pieces(
                s@.take(i as int),
            )[j],
        decreases s@.len() - i,
    {
        let c = s[i];
        proof {
            assert(s@.take(i + 1).drop_last() =~= s@.take(i as int));
            assert(s@.take(i + 1).last() == c);
            lemma_line_pieces_nonempty(s@.take(i as int));
        }
        let ghost before = line_pieces(s@.take(i as int));
        if c == '\n' {
            let empty: Vec<char> = Vec::new();
            pieces.push(empty);
            proof {
                let after = line_pieces(s@.take(i + 1));
                assert forall|j: int| 0 <= j < pieces@.len() implies (#[trigger] pieces@[j])@
                    == after[j] by {
                    if j < pieces@.len() - 1 {
                        assert(after[j] == before[j]);
                    } else {
                        assert(pieces@[j]@ =~= Seq::<char>::empty());
                    }
                }
            }
        } else {
            let n = pieces.len();
            let mut last = pieces.pop().unwrap();
            last.push(c);
            pieces.push(last);
            proof {
                let after = line_pieces(s@.take(i + 1));
                assert forall|j: int| 0 <= j < pieces@.len() implies (#[trigger] pieces@[j])@
                    == after[j] by {
                    if j < n - 1 {
                        assert(after[j] == before[j]);
                    }
                }
            }
        }
        i = i + 1;
    }
    assert(s@.take(s@.len() as int) =~= s@);
    pieces
}

} // verus!
