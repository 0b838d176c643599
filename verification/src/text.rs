//! Character-level text handling for command output: lines, whitespace
//! words, trimming, and unsigned decimal numbers.
use vstd::prelude::*;

verus! {

broadcast use vstd::string::axiom_spec_iter;

// ---------------------------------------------------------------------
// Characters
// ---------------------------------------------------------------------

/// Unicode `White_Space`, the set that `char::is_whitespace` tests.
pub open spec fn is_white_space(c: char) -> bool {
    let u = c as u32;
    ||| 0x09 <= u <= 0x0d
    ||| u == 0x20
    ||| u == 0x85
    ||| u == 0xa0
    ||| u == 0x1680
    ||| 0x2000 <= u <= 0x200a
    ||| u == 0x2028
    ||| u == 0x2029
    ||| u == 0x202f
    ||| u == 0x205f
    ||| u == 0x3000
}

pub fn white_space(c: char) -> (r: bool)
    ensures
        r == is_white_space(c),
{
    let u = c as u32;
    (0x09 <= u && u <= 0x0d) || u == 0x20 || u == 0x85 || u == 0xa0 || u == 0x1680 || (0x2000
        <= u && u <= 0x200a) || u == 0x2028 || u == 0x2029 || u == 0x202f || u == 0x205f || u
        == 0x3000
}

pub open spec fn is_digit(c: char) -> bool {
    0x30 <= (c as u32) <= 0x39
}

pub open spec fn digit_value(c: char) -> nat {
    ((c as u32) - 0x30) as nat
}

pub open spec fn digit_char(d: nat) -> char {
    ((d + 0x30) as u32) as char
}

/// The characters of a string slice, in order.
pub fn chars_of(s: &str) -> (v: Vec<char>)
    ensures
        v@ == s@,
{
    let mut v: Vec<char> = Vec::new();
    for c in it: s.chars()
        invariant
            v@ == it.seq().take(it.index() as int),
            it.seq() == s@,
    {
        v.push(c);
    }
    v
}

/// The characters `s[lo..hi]` as a vector of their own.
pub fn chars_in_range(s: &Vec<char>, lo: usize, hi: usize) -> (r: Vec<char>)
    requires
        lo <= hi <= s.len(),
    ensures
        r@ == s@.subrange(lo as int, hi as int),
{
    let mut r: Vec<char> = Vec::new();
    let mut i = lo;
    while i < hi
        invariant
            lo <= i <= hi <= s.len(),
            r@ == s@.subrange(lo as int, i as int),
        decreases hi - i,
    {
        r.push(s[i]);
        i = i + 1;
    }
    r
}

/// The last position of `c` in `s[lo..]`, counted from `lo`.
pub open spec fn last_index_of(s: Seq<char>, c: char) -> Option<int>
    decreases s.len(),
{
    if s.len() == 0 {
        None
    } else if s.last() == c {
        Some(s.len() - 1)
    } else {
        last_index_of(s.drop_last(), c)
    }
}

pub proof fn lemma_last_index_of_bounds(s: Seq<char>, c: char)
    ensures
        last_index_of(s, c) matches Some(k) ==> 0 <= k < s.len() && s[k] == c,
    decreases s.len(),
{
    if s.len() > 0 && s.last() != c {
        lemma_last_index_of_bounds(s.drop_last(), c);
    }
}

/// Finds the last `c` in `s[lo..]`; the position returned is one of `s`.
pub fn find_last(s: &Vec<char>, lo: usize, c: char) -> (r: Option<usize>)
    requires
        lo <= s.len(),
    ensures
        match r {
            Some(j) => lo <= j < s.len() && last_index_of(s@.subrange(lo as int, s.len() as int), c)
                == Some(j - lo),
            None => last_index_of(s@.subrange(lo as int, s.len() as int), c) is None,
        },
{
    let n = s.len();
    let mut i = n;
    while i > lo
        invariant
            lo <= i <= n == s.len(),
            last_index_of(s@.subrange(lo as int, n as int), c) == last_index_of(
                s@.subrange(lo as int, i as int),
                c,
            ),
        decreases i,
    {
        let ghost t = s@.subrange(lo as int, i as int);
        assert(t.drop_last() == s@.subrange(lo as int, i - 1));
        if s[i - 1] == c {
            return Some(i - 1);
        }
        i = i - 1;
    }
    None
}

/// `String::push`: appends one character.
#[verifier::external_body]
fn string_push(s: &mut String, c: char)
    ensures
        final(s)@ == old(s)@.push(c),
{
    s.push(c);
}

/// A `String` holding exactly the characters of `s[lo..hi]`.
pub fn string_from_range(s: &Vec<char>, lo: usize, hi: usize) -> (r: String)
    requires
        lo <= hi <= s.len(),
    ensures
        r@ == s@.subrange(lo as int, hi as int),
{
    let mut r = String::new();
    let mut i = lo;
    while i < hi
        invariant
            lo <= i <= hi <= s.len(),
            r@ == s@.subrange(lo as int, i as int),
        decreases hi - i,
    {
        string_push(&mut r, s[i]);
        i = i + 1;
    }
    r
}

/// A `String` holding exactly the characters of `s`.
pub fn string_from_chars(s: &Vec<char>) -> (r: String)
    ensures
        r@ == s@,
{
    let r = string_from_range(s, 0, s.len());
    assert(s@.subrange(0, s@.len() as int) == s@);
    r
}

/// The characters held by each vector of `v`.
pub open spec fn views_of(v: Seq<Vec<char>>) -> Seq<Seq<char>> {
    v.map_values(|l: Vec<char>| l@)
}

// ---------------------------------------------------------------------
// Lines: `str::lines`
// ---------------------------------------------------------------------

/// A line loses one trailing carriage return, as `str::lines` does for `\r\n`.
pub open spec fn strip_cr(line: Seq<char>) -> Seq<char> {
    if line.len() > 0 && line.last() == '\r' {
        line.drop_last()
    } else {
        line
    }
}

/// Reading `s` from the left: the lines already ended by a `\n`, and the
/// characters of the line still open.
pub open spec fn lines_fold(s: Seq<char>) -> (Seq<Seq<char>>, Seq<char>)
    decreases s.len(),
{
    if s.len() == 0 {
        (seq![], seq![])
    } else {
        let (done, cur) = lines_fold(s.drop_last());
        if s.last() == '\n' {
            (done.push(strip_cr(cur)), seq![])
        } else {
            (done, cur.push(s.last()))
        }
    }
}

/// The lines of `s`: pieces ended by `\n` (a `\r` before it dropped), and a
/// last piece without `\n` when it is not empty.
pub open spec fn lines_of(s: Seq<char>) -> Seq<Seq<char>> {
    let (done, cur) = lines_fold(s);
    if cur.len() == 0 {
        done
    } else {
        done.push(cur)
    }
}

pub fn split_lines(s: &Vec<char>) -> (r: Vec<Vec<char>>)
    ensures
        views_of(r@) == lines_of(s@),
{
    let mut out: Vec<Vec<char>> = Vec::new();
    let mut cur: Vec<char> = Vec::new();
    let n = s.len();
    for i in 0..n
        invariant
            n == s.len(),
            lines_fold(s@.take(i as int)) == (views_of(out@), cur@),
    {
        let c = s[i];
        assert(s@.take(i + 1).drop_last() == s@.take(i as int));
        if c == '\n' {
            let mut line = cur;
            let k = line.len();
            if k > 0 && line[k - 1] == '\r' {
                line.pop();
            }
            proof {
                assert(line@ == strip_cr(cur@));
            }
            let ghost before = views_of(out@);
            out.push(line);
            assert(views_of(out@) =~= before.push(strip_cr(cur@)));
            cur = Vec::new();
        } else {
            cur.push(c);
        }
    }
    assert(s@.take(n as int) == s@);
    if cur.len() > 0 {
        let ghost before = views_of(out@);
        let ghost last = cur@;
        out.push(cur);
        assert(views_of(out@) =~= before.push(last));
    }
    out
}

// ---------------------------------------------------------------------
// Words: `str::split_whitespace`
// ---------------------------------------------------------------------

/// Reading `s` from the left: the words already ended by white space, and
/// the characters of the word still open.
pub open spec fn words_fold(s: Seq<char>) -> (Seq<Seq<char>>, Seq<char>)
    decreases s.len(),
{
    if s.len() == 0 {
        (seq![], seq![])
    } else {
        let (done, cur) = words_fold(s.drop_last());
        if is_white_space(s.last()) {
            if cur.len() == 0 {
                (done, cur)
            } else {
                (done.push(cur), seq![])
            }
        } else {
            (done, cur.push(s.last()))
        }
    }
}

/// The maximal runs of non-white-space characters of `s`, in order.
pub open spec fn words_of(s: Seq<char>) -> Seq<Seq<char>> {
    let (done, cur) = words_fold(s);
    if cur.len() == 0 {
        done
    } else {
        done.push(cur)
    }
}

pub fn split_words(s: &Vec<char>) -> (r: Vec<Vec<char>>)
    ensures
        views_of(r@) == words_of(s@),
{
    let mut out: Vec<Vec<char>> = Vec::new();
    let mut cur: Vec<char> = Vec::new();
    let n = s.len();
    for i in 0..n
        invariant
            n == s.len(),
            words_fold(s@.take(i as int)) == (views_of(out@), cur@),
    {
        let c = s[i];
        assert(s@.take(i + 1).drop_last() == s@.take(i as int));
        if white_space(c) {
            if cur.len() > 0 {
                let ghost before = views_of(out@);
                let ghost word = cur@;
                out.push(cur);
                assert(views_of(out@) =~= before.push(word));
                cur = Vec::new();
            }
        } else {
            cur.push(c);
        }
    }
    assert(s@.take(n as int) == s@);
    if cur.len() > 0 {
        let ghost before = views_of(out@);
        let ghost last = cur@;
        out.push(cur);
        assert(views_of(out@) =~= before.push(last));
    }
    out
}

// ---------------------------------------------------------------------
// Trimming: `str::trim`
// ---------------------------------------------------------------------

pub open spec fn trim_start(s: Seq<char>) -> Seq<char>
    decreases s.len(),
{
    if s.len() > 0 && is_white_space(s[0]) {
        trim_start(s.drop_first())
    } else {
        s
    }
}

pub open spec fn trim_end(s: Seq<char>) -> Seq<char>
    decreases s.len(),
{
    if s.len() > 0 && is_white_space(s.last()) {
        trim_end(s.drop_last())
    } else {
        s
    }
}

/// `s` without its leading and trailing white space.
pub open spec fn trim(s: Seq<char>) -> Seq<char> {
    trim_end(trim_start(s))
}

/// The bounds `lo..hi` of the trimmed part of `s`.
pub fn trimmed_range(s: &Vec<char>) -> (r: (usize, usize))
    ensures
        r.0 <= r.1 <= s.len(),
        s@.subrange(r.0 as int, r.1 as int) == trim(s@),
{
    let n = s.len();
    let mut lo: usize = 0;
    assert(s@.skip(0) == s@);
    while lo < n && white_space(s[lo])
        invariant
            lo <= n == s.len(),
            trim_start(s@) == trim_start(s@.skip(lo as int)),
        decreases n - lo,
    {
        assert(s@.skip(lo as int).drop_first() == s@.skip(lo + 1));
        lo = lo + 1;
    }
    assert(trim_start(s@.skip(lo as int)) == s@.skip(lo as int));
    assert(s@.skip(lo as int) == s@.subrange(lo as int, n as int));
    let mut hi: usize = n;
    while hi > lo && white_space(s[hi - 1])
        invariant
            lo <= hi <= n == s.len(),
            trim(s@) == trim_end(s@.subrange(lo as int, hi as int)),
        decreases hi,
    {
        assert(s@.subrange(lo as int, hi as int).drop_last() == s@.subrange(lo as int, hi - 1));
        hi = hi - 1;
    }
    (lo, hi)
}

pub open spec fn all_white(s: Seq<char>) -> bool {
    forall|i: int| 0 <= i < s.len() ==> is_white_space(#[trigger] s[i])
}

proof fn lemma_trim_end_empty(s: Seq<char>)
    requires
        trim_end(s).len() == 0,
    ensures
        all_white(s),
    decreases s.len(),
{
    if s.len() > 0 {
        lemma_trim_end_empty(s.drop_last());
        assert forall|i: int| 0 <= i < s.len() implies is_white_space(#[trigger] s[i]) by {
            if i < s.len() - 1 {
                assert(s[i] == s.drop_last()[i]);
            }
        }
    }
}

proof fn lemma_trim_start_white(s: Seq<char>)
    requires
        all_white(trim_start(s)),
    ensures
        all_white(s),
    decreases s.len(),
{
    if s.len() > 0 && is_white_space(s[0]) {
        lemma_trim_start_white(s.drop_first());
        assert forall|i: int| 0 <= i < s.len() implies is_white_space(#[trigger] s[i]) by {
            if i > 0 {
                assert(s[i] == s.drop_first()[i - 1]);
            }
        }
    }
}

/// Text that trims to nothing is white space throughout.
pub proof fn lemma_trim_empty(s: Seq<char>)
    requires
        trim(s).len() == 0,
    ensures
        all_white(s),
{
    lemma_trim_end_empty(trim_start(s));
    lemma_trim_start_white(s);
}

proof fn lemma_lines_fold_white(s: Seq<char>)
    requires
        all_white(s),
    ensures
        all_white(lines_fold(s).1),
        forall|i: int| 0 <= i < lines_fold(s).0.len() ==> all_white(#[trigger] lines_fold(s).0[i]),
    decreases s.len(),
{
    if s.len() > 0 {
        let p = s.drop_last();
        assert(all_white(p)) by {
            assert forall|i: int| 0 <= i < p.len() implies is_white_space(#[trigger] p[i]) by {
                assert(p[i] == s[i]);
            }
        }
        lemma_lines_fold_white(p);
        let (done, cur) = lines_fold(p);
        assert(is_white_space(s.last()));
        if s.last() == '\n' {
            assert(all_white(strip_cr(cur))) by {
                let t = strip_cr(cur);
                assert forall|i: int| 0 <= i < t.len() implies is_white_space(#[trigger] t[i]) by {
                    assert(t[i] == cur[i]);
                }
            }
            assert forall|i: int| 0 <= i < done.push(strip_cr(cur)).len() implies all_white(
                #[trigger] done.push(strip_cr(cur))[i],
            ) by {
                if i < done.len() {
                    assert(done.push(strip_cr(cur))[i] == done[i]);
                }
            }
        } else {
            let t = cur.push(s.last());
            assert forall|i: int| 0 <= i < t.len() implies is_white_space(#[trigger] t[i]) by {
                if i < cur.len() {
                    assert(t[i] == cur[i]);
                }
            }
        }
    }
}

/// The lines of white-space text are white space throughout.
pub proof fn lemma_lines_white(s: Seq<char>)
    requires
        all_white(s),
    ensures
        forall|i: int| 0 <= i < lines_of(s).len() ==> all_white(#[trigger] lines_of(s)[i]),
{
    lemma_lines_fold_white(s);
    let (done, cur) = lines_fold(s);
    if cur.len() > 0 {
        assert forall|i: int| 0 <= i < lines_of(s).len() implies all_white(
            #[trigger] lines_of(s)[i],
        ) by {
            if i < done.len() {
                assert(lines_of(s)[i] == done[i]);
            }
        }
    }
}

// ---------------------------------------------------------------------
// Unsigned decimal numbers: `u16`/`u32`/`u64` `from_str`
// ---------------------------------------------------------------------

pub open spec fn all_digits(d: Seq<char>) -> bool {
    forall|i: int| 0 <= i < d.len() ==> is_digit(#[trigger] d[i])
}

/// The number that a run of decimal digits spells.
pub open spec fn digits_value(d: Seq<char>) -> nat
    decreases d.len(),
{
    if d.len() == 0 {
        0
    } else {
        digits_value(d.drop_last()) * 10 + digit_value(d.last())
    }
}

/// The digits of an unsigned number: one leading `+` is allowed.
pub open spec fn unsigned_digits(s: Seq<char>) -> Seq<char> {
    if s.len() > 0 && s[0] == '+' {
        s.drop_first()
    } else {
        s
    }
}

/// The value of `s` read as an unsigned decimal number without a bound.
pub open spec fn parse_unsigned(s: Seq<char>) -> Option<nat> {
    let d = unsigned_digits(s);
    if d.len() > 0 && all_digits(d) {
        Some(digits_value(d))
    } else {
        None
    }
}

/// The value of `s` as an unsigned decimal number no larger than `max`, as
/// `from_str` of an unsigned integer type with that maximum reads it.
pub open spec fn parse_bounded(s: Seq<char>, max: nat) -> Option<nat> {
    match parse_unsigned(s) {
        Some(v) => if v <= max {
            Some(v)
        } else {
            None
        },
        None => None,
    }
}

proof fn lemma_digits_step(s: Seq<char>, start: int, i: int)
    requires
        0 <= start <= i < s.len(),
    ensures
        s.subrange(start, i + 1).drop_last() == s.subrange(start, i),
        s.subrange(start, i + 1).last() == s[i],
{
    assert(s.subrange(start, i + 1).drop_last() =~= s.subrange(start, i));
}

/// Reads `s[lo..hi]` as a `u64` in decimal.
pub fn parse_u64_range(s: &Vec<char>, lo: usize, hi: usize) -> (r: Option<u64>)
    requires
        lo <= hi <= s.len(),
    ensures
        match r {
            Some(v) => parse_bounded(s@.subrange(lo as int, hi as int), u64::MAX as nat) == Some(
                v as nat,
            ),
            None => parse_bounded(s@.subrange(lo as int, hi as int), u64::MAX as nat) is None,
        },
{
    let ghost t = s@.subrange(lo as int, hi as int);
    let mut start = lo;
    if lo < hi && s[lo] == '+' {
        start = lo + 1;
        assert(unsigned_digits(t) == s@.subrange(start as int, hi as int));
    } else {
        assert(unsigned_digits(t) == s@.subrange(start as int, hi as int));
    }
    if start == hi {
        return None;
    }
    let mut i = start;
    let mut acc: u64 = 0;
    let mut overflow = false;
    assert(s@.subrange(start as int, start as int) =~= Seq::<char>::empty());
    while i < hi
        invariant
            lo <= start <= i <= hi <= s.len(),
            t == s@.subrange(lo as int, hi as int),
            unsigned_digits(t) == s@.subrange(start as int, hi as int),
            all_digits(s@.subrange(start as int, i as int)),
            overflow ==> digits_value(s@.subrange(start as int, i as int)) > u64::MAX,
            !overflow ==> acc == digits_value(s@.subrange(start as int, i as int)),
        decreases hi - i,
    {
        let c = s[i];
        let u = c as u32;
        proof {
            lemma_digits_step(s@, start as int, i as int);
        }
        if u < 0x30 || u > 0x39 {
            assert(!is_digit(unsigned_digits(t)[i - start]));
            return None;
        }
        let d = (u - 0x30) as u64;
        if !overflow {
            match acc.checked_mul(10) {
                Some(m) => match m.checked_add(d) {
                    Some(v) => {
                        acc = v;
                    },
                    None => {
                        overflow = true;
                    },
                },
                None => {
                    overflow = true;
                },
            }
        }
        i = i + 1;
        assert(all_digits(s@.subrange(start as int, i as int))) by {
            assert forall|j: int| 0 <= j < i - start implies is_digit(
                #[trigger] s@.subrange(start as int, i as int)[j],
            ) by {
                if j < i - 1 - start {
                    assert(s@.subrange(start as int, i as int)[j] == s@.subrange(
                        start as int,
                        i - 1,
                    )[j]);
                }
            }
        }
    }
    if overflow {
        None
    } else {
        Some(acc)
    }
}

/// Reads `s[lo..hi]` as a `u32` in decimal.
pub fn parse_u32_range(s: &Vec<char>, lo: usize, hi: usize) -> (r: Option<u32>)
    requires
        lo <= hi <= s.len(),
    ensures
        match r {
            Some(v) => parse_bounded(s@.subrange(lo as int, hi as int), u32::MAX as nat) == Some(
                v as nat,
            ),
            None => parse_bounded(s@.subrange(lo as int, hi as int), u32::MAX as nat) is None,
        },
{
    match parse_u64_range(s, lo, hi) {
        Some(v) => if v <= 0xffff_ffff {
            Some(v as u32)
        } else {
            None
        },
        None => None,
    }
}

/// Reads `s[lo..hi]` as a `u16` in decimal.
pub fn parse_u16_range(s: &Vec<char>, lo: usize, hi: usize) -> (r: Option<u16>)
    requires
        lo <= hi <= s.len(),
    ensures
        match r {
            Some(v) => parse_bounded(s@.subrange(lo as int, hi as int), u16::MAX as nat) == Some(
                v as nat,
            ),
            None => parse_bounded(s@.subrange(lo as int, hi as int), u16::MAX as nat) is None,
        },
{
    match parse_u64_range(s, lo, hi) {
        Some(v) => if v <= 0xffff {
            Some(v as u16)
        } else {
            None
        },
        None => None,
    }
}

// ---------------------------------------------------------------------
// Decimal formatting: `u32::to_string`
// ---------------------------------------------------------------------

/// The shortest decimal spelling of `n`.
pub open spec fn decimal(n: nat) -> Seq<char>
    decreases n,
{
    if n < 10 {
        seq![digit_char(n)]
    } else {
        decimal(n / 10).push(digit_char(n % 10))
    }
}

fn digit_to_char(d: u64) -> (c: char)
    requires
        d < 10,
    ensures
        c == digit_char(d as nat),
{
    match d {
        0 => '0',
        1 => '1',
        2 => '2',
        3 => '3',
        4 => '4',
        5 => '5',
        6 => '6',
        7 => '7',
        8 => '8',
        _ => '9',
    }
}

/// Appends the decimal spelling of `n` to `out`.
pub fn push_decimal(out: &mut Vec<char>, n: u64)
    ensures
        final(out)@ == old(out)@ + decimal(n as nat),
    decreases n,
{
    if n >= 10 {
        push_decimal(out, n / 10);
    }
    let c = digit_to_char(n % 10);
    out.push(c);
}

proof fn lemma_digit_char(k: nat)
    requires
        k < 10,
    ensures
        is_digit(digit_char(k)),
        digit_value(digit_char(k)) == k,
        digit_char(k) != '+',
{
    assert(((k + 0x30) as u32) as char as u32 == (k + 0x30) as u32);
}

/// What a decimal spelling reads back as: the number it was made from.
pub proof fn lemma_decimal_parses_back(n: nat)
    ensures
        decimal(n).len() > 0,
        decimal(n)[0] != '+',
        all_digits(decimal(n)),
        digits_value(decimal(n)) == n,
        parse_unsigned(decimal(n)) == Some(n),
    decreases n,
{
    lemma_digit_char(n % 10);
    let d = decimal(n);
    if n >= 10 {
        lemma_decimal_parses_back(n / 10);
        assert(d.drop_last() == decimal(n / 10));
        assert(d.last() == digit_char(n % 10));
        assert(digits_value(d) == (n / 10) * 10 + n % 10);
        assert(d[0] == decimal(n / 10)[0]);
        assert(all_digits(d)) by {
            assert forall|i: int| 0 <= i < d.len() implies is_digit(#[trigger] d[i]) by {
                if i < d.len() - 1 {
                    assert(d[i] == decimal(n / 10)[i]);
                }
            }
        }
    } else {
        assert(d.drop_last() =~= Seq::<char>::empty());
        assert(digits_value(d.drop_last()) == 0);
        assert(d.last() == digit_char(n));
        assert(n % 10 == n);
        assert(digits_value(d) == n);
    }
    assert(unsigned_digits(d) == d);
}

// ---------------------------------------------------------------------
// Fields: `str::split` at one character
// ---------------------------------------------------------------------

/// Reading `s` from the left: the fields already ended by `sep`, and the
/// characters of the field still open.
pub open spec fn fields_fold(s: Seq<char>, sep: char) -> (Seq<Seq<char>>, Seq<char>)
    decreases s.len(),
{
    if s.len() == 0 {
        (seq![], seq![])
    } else {
        let (done, cur) = fields_fold(s.drop_last(), sep);
        if s.last() == sep {
            (done.push(cur), seq![])
        } else {
            (done, cur.push(s.last()))
        }
    }
}

/// The pieces of `s` between occurrences of `sep`, empty ones included.
pub open spec fn fields_of(s: Seq<char>, sep: char) -> Seq<Seq<char>> {
    let (done, cur) = fields_fold(s, sep);
    done.push(cur)
}

/// Characters without `sep` extend the open field.
pub proof fn lemma_fields_fold_plain(x: Seq<char>, d: Seq<char>, sep: char)
    requires
        forall|i: int| 0 <= i < d.len() ==> d[i] != sep,
    ensures
        fields_fold(x + d, sep) == (fields_fold(x, sep).0, fields_fold(x, sep).1 + d),
    decreases d.len(),
{
    if d.len() == 0 {
        assert(x + d =~= x);
        assert(fields_fold(x, sep).1 + d =~= fields_fold(x, sep).1);
    } else {
        assert((x + d).drop_last() =~= x + d.drop_last());
        assert((x + d).last() == d.last());
        lemma_fields_fold_plain(x, d.drop_last(), sep);
        assert(fields_fold(x, sep).1 + d.drop_last() + seq![d.last()] =~= fields_fold(x, sep).1
            + d);
        assert((fields_fold(x, sep).1 + d.drop_last()).push(d.last()) =~= fields_fold(x, sep).1
            + d);
    }
}

/// A separator closes the open field.
pub proof fn lemma_fields_fold_sep(x: Seq<char>, sep: char)
    ensures
        fields_fold(x.push(sep), sep) == (fields_of(x, sep), Seq::<char>::empty()),
{
    assert(x.push(sep).drop_last() =~= x);
}

/// Digits hold no character other than a digit.
pub proof fn lemma_digits_exclude(d: Seq<char>, c: char)
    requires
        all_digits(d),
        !is_digit(c),
    ensures
        forall|i: int| 0 <= i < d.len() ==> d[i] != c,
{
}

// ---------------------------------------------------------------------
// How the folds read text put together from pieces
// ---------------------------------------------------------------------

/// Characters other than `\n` extend the open line.
pub proof fn lemma_lines_fold_plain(x: Seq<char>, d: Seq<char>)
    requires
        forall|i: int| 0 <= i < d.len() ==> d[i] != '\n',
    ensures
        lines_fold(x + d) == (lines_fold(x).0, lines_fold(x).1 + d),
    decreases d.len(),
{
    if d.len() == 0 {
        assert(x + d =~= x);
        assert(lines_fold(x).1 + d =~= lines_fold(x).1);
    } else {
        assert((x + d).drop_last() =~= x + d.drop_last());
        assert((x + d).last() == d.last());
        lemma_lines_fold_plain(x, d.drop_last());
        assert((lines_fold(x).1 + d.drop_last()).push(d.last()) =~= lines_fold(x).1 + d);
    }
}

/// A `\n` closes the open line.
pub proof fn lemma_lines_fold_newline(x: Seq<char>)
    ensures
        lines_fold(x.push('\n')) == (
            lines_fold(x).0.push(strip_cr(lines_fold(x).1)),
            Seq::<char>::empty(),
        ),
{
    assert(x.push('\n').drop_last() =~= x);
}

/// Characters other than white space extend the open word.
pub proof fn lemma_words_fold_plain(x: Seq<char>, d: Seq<char>)
    requires
        forall|i: int| 0 <= i < d.len() ==> !is_white_space(d[i]),
    ensures
        words_fold(x + d) == (words_fold(x).0, words_fold(x).1 + d),
    decreases d.len(),
{
    if d.len() == 0 {
        assert(x + d =~= x);
        assert(words_fold(x).1 + d =~= words_fold(x).1);
    } else {
        assert((x + d).drop_last() =~= x + d.drop_last());
        assert((x + d).last() == d.last());
        lemma_words_fold_plain(x, d.drop_last());
        assert((words_fold(x).1 + d.drop_last()).push(d.last()) =~= words_fold(x).1 + d);
    }
}

/// A white-space character closes the open word, if there is one.
pub proof fn lemma_words_fold_white(x: Seq<char>, c: char)
    requires
        is_white_space(c),
    ensures
        words_fold(x.push(c)) == (if words_fold(x).1.len() == 0 {
            words_fold(x)
        } else {
            (words_fold(x).0.push(words_fold(x).1), Seq::<char>::empty())
        }),
{
    assert(x.push(c).drop_last() =~= x);
}

/// The last `c` of `a`, `c`, `d` is the one after `a` when `d` holds none.
pub proof fn lemma_last_index_after(a: Seq<char>, c: char, d: Seq<char>)
    requires
        forall|i: int| 0 <= i < d.len() ==> d[i] != c,
    ensures
        last_index_of(a.push(c) + d, c) == Some(a.len() as int),
    decreases d.len(),
{
    if d.len() == 0 {
        assert(a.push(c) + d =~= a.push(c));
    } else {
        assert((a.push(c) + d).drop_last() =~= a.push(c) + d.drop_last());
        assert((a.push(c) + d).last() == d.last());
        lemma_last_index_after(a, c, d.drop_last());
    }
}

/// Decimal digits are neither white space, a line feed, a carriage
/// return, a colon nor a comma.
pub proof fn lemma_decimal_plain(n: nat)
    ensures
        decimal(n).len() > 0,
        decimal(n).last() != '\r',
        forall|i: int|
            0 <= i < decimal(n).len() ==> !is_white_space(#[trigger] decimal(n)[i]) && decimal(n)[i]
                != '\n' && decimal(n)[i] != ':' && decimal(n)[i] != ',',
{
    lemma_decimal_parses_back(n);
    let d = decimal(n);
    assert(is_digit(d[d.len() - 1]));
    assert forall|i: int| 0 <= i < d.len() implies !is_white_space(#[trigger] d[i]) && d[i] != '\n'
        && d[i] != ':' && d[i] != ',' by {
        assert(is_digit(d[i]));
    }
}

} // verus!
