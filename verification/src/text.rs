//! Character-level text utilities: ASCII whitespace, case-insensitive
//! comparison, trimming, small-integer parsing, and comma splitting.
//!
//! All executable functions are specified against sequence models so the
//! matcher and the dispatcher can state their contracts over `Seq<char>`.

use vstd::prelude::*;

verus! {

/// ASCII whitespace: space, tab, line feed, form feed, carriage return.
pub open spec fn is_ws(c: char) -> bool {
    c == ' ' || c == '\t' || c == '\n' || c == '\u{0c}' || c == '\r'
}

/// Whether `c` is ASCII whitespace.
pub fn is_ws_char(c: char) -> (b: bool)
    ensures
        b == is_ws(c),
{
    c == ' ' || c == '\t' || c == '\n' || c == '\u{0c}' || c == '\r'
}

/// The character's code point, with ASCII upper-case letters folded to lower
/// case.
pub open spec fn lower_code(c: char) -> int {
    if 65 <= c as u32 && c as u32 <= 90 {
        c as u32 + 32
    } else {
        c as u32 as int
    }
}

/// The folded code point of `c`.
pub fn lower_code_char(c: char) -> (r: u32)
    ensures
        r == lower_code(c),
{
    let u = c as u32;
    if 65 <= u && u <= 90 {
        u + 32
    } else {
        u
    }
}

/// Case-insensitive equality of two character sequences, folding ASCII letters
/// only.
pub open spec fn eq_ci(a: Seq<char>, b: Seq<char>) -> bool {
    a.len() == b.len() && (forall|i: int| 0 <= i < a.len() ==> lower_code(a[i]) == lower_code(b[i]))
}

/// Whether `a` begins with `p`.
pub open spec fn starts_with(a: Seq<char>, p: Seq<char>) -> bool {
    a.len() >= p.len() && a.subrange(0, p.len() as int) == p
}

/// The characters of `s`, one by one.
pub fn chars_vec(s: &str) -> (v: Vec<char>)
    ensures
        v@ == s@,
{
    let n = s.unicode_len();
    let mut v: Vec<char> = Vec::new();
    let mut i: usize = 0;
    while i < n
        invariant
            i <= n,
            n == s@.len(),
            v@ =~= s@.subrange(0, i as int),
        decreases n - i,
    {
        let c = s.get_char(i);
        v.push(c);
        i += 1;
        assert(v@ =~= s@.subrange(0, i as int));
    }
    assert(v@ =~= s@);
    v
}

/// Whether the characters of `a` begin with the characters of `p`.
pub fn chars_start_with(a: &Vec<char>, p: &Vec<char>) -> (b: bool)
    ensures
        b == starts_with(a@, p@),
{
    if a.len() < p.len() {
        return false;
    }
    let m = p.len();
    let mut i: usize = 0;
    while i < m
        invariant
            i <= m,
            m == p@.len() <= a@.len(),
            forall|j: int| 0 <= j < i ==> a@[j] == p@[j],
        decreases m - i,
    {
        if a[i] != p[i] {
            assert(a@.subrange(0, m as int)[i as int] != p@[i as int]);
            return false;
        }
        i += 1;
    }
    assert(a@.subrange(0, m as int) =~= p@);
    true
}

/// Whether the characters of `a` and `b` are the same sequence.
pub fn chars_eq(a: &Vec<char>, b: &Vec<char>) -> (r: bool)
    ensures
        r == (a@ == b@),
{
    if a.len() != b.len() {
        return false;
    }
    let n = a.len();
    let mut i: usize = 0;
    while i < n
        invariant
            i <= n,
            n == a@.len() == b@.len(),
            forall|j: int| 0 <= j < i ==> a@[j] == b@[j],
        decreases n - i,
    {
        if a[i] != b[i] {
            return false;
        }
        i += 1;
    }
    assert(a@ =~= b@);
    true
}

/// `s` without leading ASCII whitespace.
pub open spec fn trim_start(s: Seq<char>) -> Seq<char>
    decreases s.len(),
{
    if s.len() > 0 && is_ws(s[0]) {
        trim_start(s.drop_first())
    } else {
        s
    }
}

/// `s` without trailing ASCII whitespace.
pub open spec fn trim_end(s: Seq<char>) -> Seq<char>
    decreases s.len(),
{
    if s.len() > 0 && is_ws(s.last()) {
        trim_end(s.drop_last())
    } else {
        s
    }
}

/// `s` without leading and trailing ASCII whitespace.
pub open spec fn trim(s: Seq<char>) -> Seq<char> {
    trim_end(trim_start(s))
}

/// Dropping a wholly-whitespace prefix does not change `trim_start`.
proof fn lemma_trim_start_skip(s: Seq<char>, lo: int)
    requires
        0 <= lo <= s.len(),
        forall|j: int| 0 <= j < lo ==> is_ws(s[j]),
    ensures
        trim_start(s) == trim_start(s.skip(lo)),
    decreases lo,
{
    if lo == 0 {
        assert(s.skip(0) =~= s);
    } else {
        assert(is_ws(s[0]));
        lemma_trim_start_skip(s.drop_first(), lo - 1);
        assert(s.drop_first().skip(lo - 1) =~= s.skip(lo));
    }
}

/// Dropping a wholly-whitespace suffix does not change `trim_end`.
proof fn lemma_trim_end_take(s: Seq<char>, hi: int)
    requires
        0 <= hi <= s.len(),
        forall|j: int| hi <= j < s.len() ==> is_ws(s[j]),
    ensures
        trim_end(s) == trim_end(s.take(hi)),
    decreases s.len() - hi,
{
    if hi == s.len() {
        assert(s.take(hi) =~= s);
    } else {
        assert(is_ws(s.last()));
        lemma_trim_end_take(s.drop_last(), hi);
        assert(s.drop_last() =~= s.take(s.len() - 1));
        assert(s.drop_last().take(hi) =~= s.take(hi));
    }
}

/// The value of a digit character.
pub open spec fn digit_val(c: char) -> int {
    c as u32 - 48
}

/// Whether `c` is an ASCII decimal digit.
pub open spec fn is_digit(c: char) -> bool {
    48 <= c as u32 && c as u32 <= 57
}

/// Whether every character of `s` is an ASCII decimal digit.
pub open spec fn all_digits(s: Seq<char>) -> bool {
    forall|i: int| 0 <= i < s.len() ==> is_digit(s[i])
}

/// The number the digit string `s` denotes, most significant digit first.
pub open spec fn digits_val(s: Seq<char>) -> int
    decreases s.len(),
{
    if s.len() == 0 {
        0
    } else {
        digits_val(s.drop_last()) * 10 + digit_val(s.last())
    }
}

/// The number a digit string denotes is never negative.
proof fn lemma_digits_val_nonneg(s: Seq<char>)
    requires
        all_digits(s),
    ensures
        digits_val(s) >= 0,
    decreases s.len(),
{
    if s.len() > 0 {
        assert(all_digits(s.drop_last()));
        lemma_digits_val_nonneg(s.drop_last());
    }
}

/// A bare digit string read as a value that fits in eight bits.
pub open spec fn parse_body(body: Seq<char>) -> Option<u8> {
    if body.len() > 0 && all_digits(body) && digits_val(body) <= 255 {
        Option::Some(digits_val(body) as u8)
    } else {
        Option::None
    }
}

/// How `str::parse::<u8>` reads a string: an optional leading plus sign, then
/// at least one decimal digit, denoting a value that fits in eight bits.
pub open spec fn parse_u8_spec(s: Seq<char>) -> Option<u8> {
    parse_body(
        if s.len() > 0 && s[0] == '+' {
            s.drop_first()
        } else {
            s
        },
    )
}

/// Read the suffix of `text` that starts at `from` as a small unsigned
/// integer, ignoring surrounding ASCII whitespace.
pub fn parse_u8_arg(text: &Vec<char>, from: usize) -> (r: Option<u8>)
    requires
        from <= text@.len(),
    ensures
        r == parse_u8_spec(trim(text@.skip(from as int))),
{
    let ghost s = text@.skip(from as int);
    let n = text.len();
    let mut lo = from;
    while lo < n && is_ws_char(text[lo])
        invariant
            from <= lo <= n,
            n == text@.len(),
            forall|j: int| from <= j < lo ==> is_ws(text@[j]),
        decreases n - lo,
    {
        lo += 1;
    }
    proof {
        lemma_trim_start_skip(s, lo - from);
        assert(s.skip(lo - from) =~= text@.skip(lo as int));
        assert(trim_start(s) == text@.skip(lo as int));
    }
    let mut hi = n;
    while hi > lo && is_ws_char(text[hi - 1])
        invariant
            lo <= hi <= n,
            n == text@.len(),
            forall|j: int| hi <= j < n ==> is_ws(text@[j]),
        decreases hi,
    {
        hi -= 1;
    }
    let ghost body0 = text@.subrange(lo as int, hi as int);
    proof {
        lemma_trim_end_take(text@.skip(lo as int), hi - lo);
        assert(text@.skip(lo as int).take(hi - lo) =~= body0);
        assert(trim(s) == body0);
    }
    // optional plus sign
    let mut p = lo;
    if p < hi && text[p] == '+' {
        p += 1;
    }
    let ghost body = text@.subrange(p as int, hi as int);
    proof {
        if p != lo {
            assert(body0[0] == '+');
            assert(body0.drop_first() =~= body);
            assert(parse_u8_spec(trim(s)) == parse_body(body));
        } else {
            assert(body0 =~= body);
            if body0.len() > 0 {
                assert(body0[0] == text@[lo as int]);
                assert(body0[0] != '+');
            }
            assert(parse_u8_spec(trim(s)) == parse_body(body));
        }
    }
    if p == hi {
        assert(body.len() == 0);
        return Option::None;
    }
    let mut val: u32 = 0;
    let mut over = false;
    let mut i = p;
    while i < hi
        invariant
            p <= i <= hi <= n,
            p < hi,
            n == text@.len(),
            s == text@.skip(from as int),
            body == text@.subrange(p as int, hi as int),
            parse_u8_spec(trim(s)) == parse_body(body),
            all_digits(text@.subrange(p as int, i as int)),
            !over ==> val == digits_val(text@.subrange(p as int, i as int)) && val <= 255,
            over ==> digits_val(text@.subrange(p as int, i as int)) > 255,
        decreases hi - i,
    {
        let c = text[i];
        let code = c as u32;
        if code < 48 || code > 57 {
            assert(body[i - p] == text@[i as int]);
            assert(!is_digit(body[i - p]));
            return Option::None;
        }
        let ghost pre = text@.subrange(p as int, i as int);
        let ghost cur = text@.subrange(p as int, i + 1 as int);
        proof {
            assert(cur.drop_last() =~= pre);
            assert(cur.last() == text@[i as int]);
            assert(all_digits(cur));
            lemma_digits_val_nonneg(pre);
            assert(digits_val(cur) == digits_val(pre) * 10 + digit_val(cur.last()));
        }
        if !over {
            if val > 25 || (val == 25 && code - 48 > 5) {
                over = true;
            } else {
                val = val * 10 + (code - 48);
            }
        } else {
            proof {
                assert(digit_val(cur.last()) >= 0);
            }
        }
        i += 1;
    }
    assert(text@.subrange(p as int, hi as int) =~= body);
    if over {
        Option::None
    } else {
        assert(digits_val(body) == val);
        Option::Some(val as u8)
    }
}

/// The pieces of `s` between commas, in order; an empty `s` is one empty
/// piece, as splitting on a separator yields.
pub open spec fn split_commas(s: Seq<char>) -> Seq<Seq<char>>
    decreases s.len(),
{
    if s.len() == 0 {
        seq![Seq::<char>::empty()]
    } else if s[0] == ',' {
        seq![Seq::<char>::empty()] + split_commas(s.drop_first())
    } else {
        let rest = split_commas(s.drop_first());
        seq![seq![s[0]] + rest[0]] + rest.drop_first()
    }
}

/// Splitting always yields at least one piece.
pub proof fn lemma_split_commas_len(s: Seq<char>)
    ensures
        split_commas(s).len() >= 1,
    decreases s.len(),
{
    if s.len() > 0 {
        lemma_split_commas_len(s.drop_first());
    }
}

/// A comma-free prefix joins the piece that follows it: splitting `s` takes
/// the whole run up to the first comma as the first piece.
proof fn lemma_split_commas_head(s: Seq<char>, k: int)
    requires
        0 <= k <= s.len(),
        forall|j: int| 0 <= j < k ==> s[j] != ',',
        k < s.len() ==> s[k] == ',',
    ensures
        k == s.len() ==> split_commas(s) =~~= seq![s],
        k < s.len() ==> split_commas(s) =~~= seq![s.subrange(0, k)] + split_commas(s.skip(k + 1)),
    decreases s.len(),
{
    if s.len() == 0 {
        assert(split_commas(s) =~~= seq![s]);
    } else if s[0] == ',' {
        assert(k == 0);
        assert(s.skip(1) =~= s.drop_first());
        assert(s.subrange(0, 0) =~= Seq::<char>::empty());
    } else {
        assert(k >= 1);
        lemma_split_commas_head(s.drop_first(), k - 1);
        lemma_split_commas_len(s.drop_first());
        let rest = split_commas(s.drop_first());
        if k == s.len() {
            assert(seq![s[0]] + s.drop_first() =~= s);
        } else {
            assert(seq![s[0]] + s.drop_first().subrange(0, k - 1) =~= s.subrange(0, k));
            assert(s.drop_first().skip(k) =~= s.skip(k + 1));
        }
    }
}

/// Split a comma-separated configuration value into its pieces.
pub fn parse_channels(csv: &str) -> (r: Vec<String>)
    ensures
        r.deep_view() == split_commas(csv@),
{
    let chars = chars_vec(csv);
    let n = chars.len();
    let mut out: Vec<String> = Vec::new();
    let mut start: usize = 0;
    let mut i: usize = 0;
    proof {
        assert(csv@.skip(0) =~= csv@);
        assert(out.deep_view() =~~= Seq::<Seq<char>>::empty());
    }
    while i < n
        invariant
            start <= i <= n,
            n == chars@.len(),
            chars@ == csv@,
            forall|j: int| start <= j < i ==> csv@[j] != ',',
            split_commas(csv@) =~~= out.deep_view() + split_commas(csv@.skip(start as int)),
        decreases n - i,
    {
        if chars[i] == ',' {
            let piece = csv.substring_char(start, i);
            let owned = piece.to_owned();
            let ghost prev = out.deep_view();
            proof {
                lemma_split_commas_head(csv@.skip(start as int), i - start);
                assert(csv@.skip(start as int).subrange(0, i - start) =~= csv@.subrange(
                    start as int,
                    i as int,
                ));
                assert(csv@.skip(start as int).skip(i - start + 1) =~= csv@.skip(i + 1));
            }
            out.push(owned);
            proof {
                assert(out.deep_view() =~~= prev.push(csv@.subrange(start as int, i as int)));
                assert(split_commas(csv@) =~~= out.deep_view() + split_commas(csv@.skip(i + 1)));
            }
            start = i + 1;
        }
        i += 1;
    }
    let piece = csv.substring_char(start, n);
    let owned = piece.to_owned();
    let ghost prev = out.deep_view();
    proof {
        lemma_split_commas_head(csv@.skip(start as int), n - start);
        assert(csv@.skip(start as int) =~= csv@.subrange(start as int, n as int));
    }
    out.push(owned);
    proof {
        assert(out.deep_view() =~~= prev.push(csv@.subrange(start as int, n as int)));
        assert(out.deep_view() =~~= split_commas(csv@));
    }
    out
}

} // verus!
