//! Character-level text helpers: decimal formatting and parsing of `u64`
//! values, and splitting a string on a multi-character separator. These are
//! the building blocks of the delimited wire protocol.
use vstd::prelude::*;

verus! {

/// The views of a sequence of owned strings.
pub open spec fn views_of(v: Seq<String>) -> Seq<Seq<char>> {
    v.map_values(|t: String| t@)
}

/// No character of `s` is `c`.
pub open spec fn char_free(s: Seq<char>, c: char) -> bool {
    forall|i: int| 0 <= i < s.len() ==> s[i] != c
}

// ---------------------------------------------------------------------------
// Decimal digits
// ---------------------------------------------------------------------------

/// The character for one decimal digit.
pub open spec fn digit_char(d: nat) -> char
    recommends
        d < 10,
{
    if d == 0 {
        '0'
    } else if d == 1 {
        '1'
    } else if d == 2 {
        '2'
    } else if d == 3 {
        '3'
    } else if d == 4 {
        '4'
    } else if d == 5 {
        '5'
    } else if d == 6 {
        '6'
    } else if d == 7 {
        '7'
    } else if d == 8 {
        '8'
    } else {
        '9'
    }
}

pub open spec fn is_digit(c: char) -> bool {
    48 <= c as int <= 57
}

pub open spec fn digit_val(c: char) -> nat
    recommends
        is_digit(c),
{
    (c as int - 48) as nat
}

/// The decimal representation of `n`, most significant digit first.
pub open spec fn dec_digits(n: nat) -> Seq<char>
    decreases n,
{
    if n < 10 {
        seq![digit_char(n)]
    } else {
        dec_digits(n / 10).push(digit_char(n % 10))
    }
}

pub proof fn lemma_dec_digits_are_digits(n: nat)
    ensures
        dec_digits(n).len() >= 1,
        forall|i: int| 0 <= i < dec_digits(n).len() ==> is_digit(#[trigger] dec_digits(n)[i]),
    decreases n,
{
    if n >= 10 {
        lemma_dec_digits_are_digits(n / 10);
    }
}

pub proof fn lemma_digit_char_val(d: nat)
    requires
        d < 10,
    ensures
        is_digit(digit_char(d)),
        digit_val(digit_char(d)) == d,
{
    assert('0' as int == 48);
    assert('1' as int == 49);
    assert('2' as int == 50);
    assert('3' as int == 51);
    assert('4' as int == 52);
    assert('5' as int == 53);
    assert('6' as int == 54);
    assert('7' as int == 55);
    assert('8' as int == 56);
    assert('9' as int == 57);
}

fn digit_str(d: u64) -> (r: &'static str)
    requires
        d < 10,
    ensures
        r@ == seq![digit_char(d as nat)],
{
    if d == 0 {
        proof { reveal_strlit("0"); }
        assert("0"@ =~= seq![digit_char(d as nat)]);
        "0"
    } else if d == 1 {
        proof { reveal_strlit("1"); }
        assert("1"@ =~= seq![digit_char(d as nat)]);
        "1"
    } else if d == 2 {
        proof { reveal_strlit("2"); }
        assert("2"@ =~= seq![digit_char(d as nat)]);
        "2"
    } else if d == 3 {
        proof { reveal_strlit("3"); }
        assert("3"@ =~= seq![digit_char(d as nat)]);
        "3"
    } else if d == 4 {
        proof { reveal_strlit("4"); }
        assert("4"@ =~= seq![digit_char(d as nat)]);
        "4"
    } else if d == 5 {
        proof { reveal_strlit("5"); }
        assert("5"@ =~= seq![digit_char(d as nat)]);
        "5"
    } else if d == 6 {
        proof { reveal_strlit("6"); }
        assert("6"@ =~= seq![digit_char(d as nat)]);
        "6"
    } else if d == 7 {
        proof { reveal_strlit("7"); }
        assert("7"@ =~= seq![digit_char(d as nat)]);
        "7"
    } else if d == 8 {
        proof { reveal_strlit("8"); }
        assert("8"@ =~= seq![digit_char(d as nat)]);
        "8"
    } else {
        proof { reveal_strlit("9"); }
        assert("9"@ =~= seq![digit_char(d as nat)]);
        "9"
    }
}

/// Formats `n` in decimal.
pub fn u64_to_string(n: u64) -> (r: String)
    ensures
        r@ == dec_digits(n as nat),
    decreases n,
{
    if n < 10 {
        String::from_str(digit_str(n))
    } else {
        let mut s = u64_to_string(n / 10);
        s.append(digit_str(n % 10));
        proof {
            assert(dec_digits((n / 10) as nat) + seq![digit_char((n % 10) as nat)]
                =~= dec_digits((n / 10) as nat).push(digit_char((n % 10) as nat)));
        }
        s
    }
}

/// One step of decimal parsing over the remaining characters, carrying the
/// accumulated value; `None` on a non-digit or on overflow past `u64::MAX`.
pub open spec fn parse_dec_rec(s: Seq<char>, acc: u64) -> Option<u64>
    decreases s.len(),
{
    if s.len() == 0 {
        Some(acc)
    } else if !is_digit(s[0]) {
        None
    } else {
        let d = digit_val(s[0]);
        if acc > (u64::MAX - d) / 10 {
            None
        } else {
            parse_dec_rec(s.drop_first(), (10 * acc + d) as u64)
        }
    }
}

/// The value of a decimal string: `None` if empty, non-numeric, or too large
/// for `u64`.
pub open spec fn parse_dec(s: Seq<char>) -> Option<u64> {
    if s.len() == 0 {
        None
    } else {
        parse_dec_rec(s, 0)
    }
}

/// Parses `s` as a decimal `u64`.
pub fn parse_u64(s: &str) -> (r: Option<u64>)
    ensures
        r == parse_dec(s@),
{
    let len = s.unicode_len();
    if len == 0 {
        return None;
    }
    let mut acc: u64 = 0;
    let mut i: usize = 0;
    proof {
        assert(s@.skip(0) =~= s@);
    }
    while i < len
        invariant
            0 <= i <= len,
            len == s@.len(),
            parse_dec_rec(s@, 0) == parse_dec_rec(s@.skip(i as int), acc),
        decreases len - i,
    {
        let c = s.get_char(i);
        proof {
            assert(s@.skip(i as int)[0] == s@[i as int]);
            assert(s@.skip(i as int).drop_first() =~= s@.skip(i as int + 1));
        }
        let u = c as u32;
        if u < 48 || u > 57 {
            return None;
        }
        let d = (u - 48) as u64;
        if acc > (u64::MAX - d) / 10 {
            return None;
        }
        proof {
            assert(10 * acc + d <= u64::MAX) by {
                assert(acc <= (u64::MAX - d) / 10);
                assert(10 * acc <= u64::MAX - d) by (nonlinear_arith)
                    requires acc <= (u64::MAX - d) / 10, d <= 9;
            }
        }
        acc = 10 * acc + d;
        i = i + 1;
    }
    proof {
        assert(s@.skip(len as int) =~= Seq::<char>::empty());
    }
    Some(acc)
}

/// Parsing treats an appended character as one more step of the fold.
proof fn lemma_parse_dec_rec_push(s: Seq<char>, c: char, acc: u64)
    ensures
        parse_dec_rec(s.push(c), acc) == (match parse_dec_rec(s, acc) {
            Some(v) => {
                if is_digit(c) && v <= (u64::MAX - digit_val(c)) / 10 {
                    Some((10 * v + digit_val(c)) as u64)
                } else {
                    None
                }
            },
            None => None,
        }),
    decreases s.len(),
{
    if s.len() == 0 {
        assert(s.push(c) =~= seq![c]);
        assert(s.push(c).drop_first() =~= Seq::<char>::empty());
    } else {
        assert(s.push(c)[0] == s[0]);
        assert(s.push(c).drop_first() =~= s.drop_first().push(c));
        if is_digit(s[0]) {
            let d = digit_val(s[0]);
            if acc <= (u64::MAX - d) / 10 {
                lemma_parse_dec_rec_push(s.drop_first(), c, (10 * acc + d) as u64);
            }
        }
    }
}

/// Decimal formatting and parsing round-trip.
pub proof fn lemma_parse_dec_digits(n: u64)
    ensures
        parse_dec(dec_digits(n as nat)) == Some(n),
    decreases n,
{
    lemma_dec_digits_are_digits(n as nat);
    if n < 10 {
        let s = dec_digits(n as nat);
        lemma_digit_char_val(n as nat);
        assert(s[0] == digit_char(n as nat));
        assert(s.drop_first() =~= Seq::<char>::empty());
        assert(parse_dec_rec(s.drop_first(), (10 * 0 + digit_val(s[0])) as u64) == Some(n));
        assert(parse_dec_rec(s, 0) == Some(n));
    } else {
        lemma_parse_dec_digits(n / 10);
        let q = n / 10;
        let d = (n % 10) as u64;
        let c = digit_char((n % 10) as nat);
        vstd::arithmetic::div_mod::lemma_fundamental_div_mod(n as int, 10);
        lemma_digit_char_val((n % 10) as nat);
        assert(is_digit(c) && digit_val(c) == d);
        assert(q <= (u64::MAX - d) / 10) by (nonlinear_arith)
            requires 10 * q + d <= u64::MAX, d <= 9, q >= 0;
        lemma_parse_dec_rec_push(dec_digits(q as nat), c, 0);
        assert(dec_digits(q as nat).len() >= 1);
        assert(parse_dec_rec(dec_digits(q as nat), 0) == Some(q));
        assert((10 * q + d) as u64 == n);
        assert(dec_digits(n as nat).len() >= 1);
    }
}

// ---------------------------------------------------------------------------
// Splitting on a separator
// ---------------------------------------------------------------------------

/// The separator occurs in `s` starting at position `i`.
pub open spec fn starts_with_at(s: Seq<char>, sep: Seq<char>, i: int) -> bool {
    0 <= i && i + sep.len() <= s.len() && s.subrange(i, i + sep.len() as int) == sep
}

/// `s` contains no occurrence of the separator.
pub open spec fn sep_free(s: Seq<char>, sep: Seq<char>) -> bool {
    forall|i: int| !starts_with_at(s, sep, i)
}

/// No non-trivial prefix of the separator is also a suffix of it. Such a
/// separator cannot straddle the boundary of a separator-free prefix.
pub open spec fn no_self_overlap(sep: Seq<char>) -> bool {
    forall|k: int| 1 <= k < sep.len() ==> sep.skip(k) != #[trigger] sep.take(sep.len() - k)
}

/// The segments of `s` between occurrences of `sep`, leftmost-first: `n`
/// separator occurrences yield `n + 1` segments, empty segments included.
pub open spec fn split_on(s: Seq<char>, sep: Seq<char>) -> Seq<Seq<char>>
    decreases s.len(),
{
    if sep.len() == 0 || s.len() == 0 {
        seq![s]
    } else if starts_with_at(s, sep, 0) {
        seq![Seq::<char>::empty()] + split_on(s.skip(sep.len() as int), sep)
    } else {
        let rest = split_on(s.drop_first(), sep);
        seq![seq![s[0]] + rest.first()] + rest.drop_first()
    }
}

pub proof fn lemma_split_on_len(s: Seq<char>, sep: Seq<char>)
    ensures
        split_on(s, sep).len() >= 1,
    decreases s.len(),
{
    if sep.len() == 0 || s.len() == 0 {
    } else if starts_with_at(s, sep, 0) {
        lemma_split_on_len(s.skip(sep.len() as int), sep);
    } else {
        lemma_split_on_len(s.drop_first(), sep);
    }
}

/// Dropping the first character keeps a string separator-free.
proof fn lemma_sep_free_drop_first(s: Seq<char>, sep: Seq<char>)
    requires
        s.len() >= 1,
        sep_free(s, sep),
    ensures
        sep_free(s.drop_first(), sep),
{
    assert forall|i: int| !starts_with_at(s.drop_first(), sep, i) by {
        if starts_with_at(s.drop_first(), sep, i) {
            assert(s.subrange(i + 1, i + 1 + sep.len())
                =~= s.drop_first().subrange(i, i + sep.len() as int));
            assert(starts_with_at(s, sep, i + 1));
        }
    }
}

/// A separator-free string is a single segment.
pub proof fn lemma_split_sep_free(s: Seq<char>, sep: Seq<char>)
    requires
        sep.len() >= 1,
        sep_free(s, sep),
    ensures
        split_on(s, sep) == seq![s],
    decreases s.len(),
{
    if s.len() == 0 {
    } else {
        assert(!starts_with_at(s, sep, 0));
        lemma_sep_free_drop_first(s, sep);
        lemma_split_sep_free(s.drop_first(), sep);
        assert(seq![s[0]] + s.drop_first() =~= s);
        assert(split_on(s, sep) =~~= seq![s]);
    }
}

/// Splitting distributes over one separator occurrence: with a separator-free
/// prefix `a`, the first segment of `a + sep + b` is exactly `a`.
pub proof fn lemma_split_concat(a: Seq<char>, sep: Seq<char>, b: Seq<char>)
    requires
        sep.len() >= 1,
        sep_free(a, sep),
        no_self_overlap(sep),
    ensures
        split_on(a + sep + b, sep) == seq![a] + split_on(b, sep),
    decreases a.len(),
{
    let s = a + sep + b;
    let sl = sep.len() as int;
    if a.len() == 0 {
        assert(starts_with_at(s, sep, 0)) by {
            assert(s.subrange(0, sl) =~= sep);
        }
        assert(s.skip(sl) =~= b);
        assert(a =~= Seq::<char>::empty());
        assert(split_on(s, sep) =~~= seq![a] + split_on(b, sep));
    } else {
        assert(!starts_with_at(s, sep, 0)) by {
            if starts_with_at(s, sep, 0) {
                if a.len() >= sl {
                    assert(a.subrange(0, sl) =~= s.subrange(0, sl));
                    assert(starts_with_at(a, sep, 0));
                } else {
                    let k = a.len() as int;
                    assert(sep.skip(k) =~= sep.take(sl - k)) by {
                        assert forall|j: int| 0 <= j < sl - k implies
                            sep.skip(k)[j] == sep.take(sl - k)[j] by {
                            assert(s.subrange(0, sl)[k + j] == sep[k + j]);
                            assert(s[k + j] == sep[j]);
                        }
                    }
                    assert(1 <= k < sep.len());
                    assert(false);
                }
            }
        }
        assert(s.drop_first() =~= a.drop_first() + sep + b);
        lemma_sep_free_drop_first(a, sep);
        lemma_split_concat(a.drop_first(), sep, b);
        let rest = split_on(s.drop_first(), sep);
        lemma_split_on_len(b, sep);
        assert(rest.first() == a.drop_first());
        assert(rest.drop_first() =~~= split_on(b, sep));
        assert(seq![s[0]] + rest.first() =~= a);
        assert(split_on(s, sep) =~~= seq![a] + split_on(b, sep));
    }
}

/// A string none of whose characters is the first character of `sep` is
/// separator-free.
pub proof fn lemma_char_free_sep_free(s: Seq<char>, sep: Seq<char>)
    requires
        sep.len() >= 1,
        char_free(s, sep[0]),
    ensures
        sep_free(s, sep),
{
    assert forall|i: int| !starts_with_at(s, sep, i) by {
        if starts_with_at(s, sep, i) {
            assert(s.subrange(i, i + sep.len() as int)[0] == sep[0]);
            assert(s[i] == sep[0]);
        }
    }
}

/// Tests whether `sep` occurs in `s` at position `i`.
fn match_at(s: &str, i: usize, sep: &str) -> (r: bool)
    requires
        i <= s@.len(),
    ensures
        r == starts_with_at(s@, sep@, i as int),
{
    let len = s.unicode_len();
    let n = sep.unicode_len();
    if len - i < n {
        return false;
    }
    let mut j: usize = 0;
    while j < n
        invariant
            0 <= j <= n,
            n == sep@.len(),
            len == s@.len(),
            i + n <= len,
            forall|k: int| 0 <= k < j ==> s@[i + k] == sep@[k],
        decreases n - j,
    {
        if s.get_char(i + j) != sep.get_char(j) {
            proof {
                if starts_with_at(s@, sep@, i as int) {
                    assert(s@.subrange(i as int, i + n)[j as int] == sep@[j as int]);
                }
            }
            return false;
        }
        j = j + 1;
    }
    proof {
        assert(s@.subrange(i as int, i + n) =~= sep@);
    }
    true
}

/// Prepending pending characters to the first of a non-empty list of segments.
pub open spec fn prepend_first(c: Seq<char>, ss: Seq<Seq<char>>) -> Seq<Seq<char>>
    recommends
        ss.len() >= 1,
{
    seq![c + ss.first()] + ss.drop_first()
}

/// Splits `s` on every occurrence of `sep`, leftmost-first.
pub fn split_str(s: &str, sep: &str) -> (r: Vec<String>)
    requires
        sep@.len() >= 1,
    ensures
        views_of(r@) == split_on(s@, sep@),
        r@.len() >= 1,
{
    let len = s.unicode_len();
    let sep_len = sep.unicode_len();
    let mut out: Vec<String> = Vec::new();
    let mut cur = String::new();
    let mut i: usize = 0;
    proof {
        lemma_split_on_len(s@, sep@);
        assert(s@.skip(0) =~= s@);
        assert(views_of(out@) =~= Seq::<Seq<char>>::empty());
        let ss = split_on(s@, sep@);
        assert(cur@ + ss.first() =~= ss.first());
        assert(prepend_first(cur@, ss) =~~= ss) by {
            assert(seq![ss.first()] + ss.drop_first() =~~= ss);
        }
        assert(split_on(s@, sep@) =~~=
            views_of(out@) + prepend_first(cur@, split_on(s@.skip(0), sep@)));
    }
    while i < len
        invariant
            0 <= i <= len,
            len == s@.len(),
            sep_len == sep@.len(),
            sep@.len() >= 1,
            split_on(s@, sep@) == views_of(out@)
                + prepend_first(cur@, split_on(s@.skip(i as int), sep@)),
        decreases len - i,
    {
        let ghost tail = s@.skip(i as int);
        proof {
            assert(tail.len() > 0);
        }
        if match_at(s, i, sep) {
            proof {
                assert(starts_with_at(tail, sep@, 0)) by {
                    assert(tail.subrange(0, sep@.len() as int)
                        =~= s@.subrange(i as int, i + sep@.len() as int));
                }
                assert(tail.skip(sep@.len() as int) =~= s@.skip(i + sep@.len() as int));
                lemma_split_on_len(s@.skip(i + sep@.len() as int), sep@);
            }
            out.push(cur);
            cur = String::new();
            i = i + sep_len;
            proof {
                assert(split_on(s@, sep@) == views_of(out@)
                    + prepend_first(cur@, split_on(s@.skip(i as int), sep@))) by {
                    let inner = split_on(s@.skip(i as int), sep@);
                    assert(split_on(tail, sep@) == seq![Seq::<char>::empty()] + inner);
                    assert(prepend_first(cur@, inner) =~~= inner) by {
                        assert(cur@ + inner.first() =~= inner.first());
                        assert(seq![inner.first()] + inner.drop_first() =~~= inner);
                    }
                    assert(views_of(out@) =~~= views_of(out@.drop_last()) + seq![out@.last()@]);
                    assert(prepend_first(out@.last()@, split_on(tail, sep@))
                        =~~= seq![out@.last()@] + inner) by {
                        assert(out@.last()@ + Seq::<char>::empty() =~= out@.last()@);
                        assert((seq![Seq::<char>::empty()] + inner).drop_first() =~~= inner);
                    }
                    assert(views_of(out@) + inner
                        =~~= views_of(out@.drop_last()) + (seq![out@.last()@] + inner));
                }
            }
        } else {
            proof {
                assert(!starts_with_at(tail, sep@, 0)) by {
                    if starts_with_at(tail, sep@, 0) {
                        assert(s@.subrange(i as int, i + sep@.len() as int)
                            =~= tail.subrange(0, sep@.len() as int));
                        assert(starts_with_at(s@, sep@, i as int));
                    }
                }
                assert(tail.drop_first() =~= s@.skip(i as int + 1));
                assert(tail[0] == s@[i as int]);
                lemma_split_on_len(s@.skip(i as int + 1), sep@);
            }
            let ghost old_cur = cur@;
            let piece = s.substring_char(i, i + 1);
            cur.append(piece);
            i = i + 1;
            proof {
                assert(piece@ =~= seq![s@[i - 1]]);
                let inner = split_on(s@.skip(i as int), sep@);
                assert(split_on(tail, sep@)
                    == seq![seq![tail[0]] + inner.first()] + inner.drop_first());
                assert(cur@ + inner.first() =~= old_cur + (seq![tail[0]] + inner.first()));
                assert(prepend_first(old_cur, split_on(tail, sep@))
                    =~~= prepend_first(cur@, inner)) by {
                    assert(old_cur + split_on(tail, sep@).first()
                        =~= cur@ + inner.first());
                    assert(split_on(tail, sep@).drop_first() =~~= inner.drop_first());
                }
            }
        }
    }
    proof {
        assert(s@.skip(len as int) =~= Seq::<char>::empty());
        assert(split_on(s@.skip(len as int), sep@) =~~= seq![Seq::<char>::empty()]);
        assert(prepend_first(cur@, seq![Seq::<char>::empty()]) =~~= seq![cur@]) by {
            assert(cur@ + Seq::<char>::empty() =~= cur@);
        }
    }
    let ghost final_cur = cur@;
    out.push(cur);
    proof {
        assert(views_of(out@) =~~= views_of(out@.drop_last()) + seq![final_cur]);
    }
    out
}

} // verus!
