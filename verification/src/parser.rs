//! Header tokenizer, header-line parser and format probe.
//!
//! The wire format is the ASCII literal `YUV4MPEG2 ` followed by zero or
//! more space-separated `KEYvalue` tokens, terminated by a single newline.
//! Keys `W` and `H` carry the frame width and height as base-10 integers;
//! every other key is tolerated and skipped.

use vstd::prelude::*;

use crate::error::Error;
use crate::utf8::is_utf8;
use crate::utf8::valid_utf8_range;

verus! {

/// A token delimiter: a space or a newline.
pub open spec fn is_delim(b: u8) -> bool {
    b == 32u8 || b == 10u8
}

/// Index of the first delimiter of `s`, or `s.len()` when `s` holds none.
pub open spec fn first_delim(s: Seq<u8>) -> nat
    decreases s.len(),
{
    if s.len() == 0 {
        0
    } else if is_delim(s[0]) {
        0
    } else {
        first_delim(s.skip(1)) + 1
    }
}

/// `first_delim` points at the first delimiter: no delimiter stands before
/// it, and one stands at it unless `s` holds none at all.
pub proof fn lemma_first_delim(s: Seq<u8>)
    ensures
        first_delim(s) <= s.len(),
        forall|j: int| 0 <= j < first_delim(s) ==> !is_delim(s[j]),
        first_delim(s) < s.len() ==> is_delim(s[first_delim(s) as int]),
    decreases s.len(),
{
    if s.len() == 0 {
    } else if is_delim(s[0]) {
    } else {
        lemma_first_delim(s.skip(1));
        assert forall|j: int| 0 <= j < first_delim(s) implies !is_delim(s[j]) by {
            if j > 0 {
                assert(s.skip(1)[j - 1] == s[j]);
            }
        }
        if first_delim(s) < s.len() {
            assert(s.skip(1)[first_delim(s) - 1] == s[first_delim(s) as int]);
        }
    }
}

/// An ASCII decimal digit.
pub open spec fn is_digit(b: u8) -> bool {
    48 <= b && b <= 57
}

/// Every byte of `s` is an ASCII decimal digit.
pub open spec fn all_digits(s: Seq<u8>) -> bool {
    forall|i: int| 0 <= i < s.len() ==> is_digit(s[i])
}

/// Numeric value of the digit string `s`, most significant digit first.
pub open spec fn digits_value(s: Seq<u8>) -> nat
    decreases s.len(),
{
    if s.len() == 0 {
        0
    } else {
        digits_value(s.drop_last()) * 10 + (s.last() - 48) as nat
    }
}

/// `s` is a non-empty digit string whose value fits the machine word.
pub open spec fn parses_as_usize(s: Seq<u8>) -> bool {
    s.len() > 0 && all_digits(s) && digits_value(s) <= usize::MAX
}

/// Result of reading a numeric value: the value when `s` parses, else nothing.
pub open spec fn spec_parse_number(s: Seq<u8>) -> Option<usize> {
    if parses_as_usize(s) {
        Some(digits_value(s) as usize)
    } else {
        None
    }
}

/// Appending digits never shrinks the value of a digit string.
proof fn lemma_digits_value_prefix(s: Seq<u8>, i: int)
    requires
        0 <= i <= s.len(),
    ensures
        digits_value(s.take(i)) <= digits_value(s),
    decreases s.len() - i,
{
    if i == s.len() {
        assert(s.take(i) =~= s);
    } else {
        lemma_digits_value_prefix(s, i + 1);
        assert(s.take(i + 1).drop_last() =~= s.take(i));
        assert(digits_value(s.take(i + 1)) == digits_value(s.take(i)) * 10 + (s.take(i + 1).last()
            - 48) as nat);
        assert(digits_value(s.take(i)) * 10 >= digits_value(s.take(i))) by (nonlinear_arith);
    }
}

/// Reads `input[start..end]` as a base-10 value, exactly when it is a
/// non-empty digit string whose value fits.
fn parse_number(input: &[u8], start: usize, end: usize) -> (r: Option<usize>)
    requires
        start <= end,
        end <= input@.len(),
    ensures
        r == spec_parse_number(input@.subrange(start as int, end as int)),
{
    let ghost sub = input@.subrange(start as int, end as int);
    proof {
        assert forall|k: int| 0 <= k < sub.len() implies sub[k] == input@[start + k] by {}
    }
    if start == end {
        return None;
    }
    let mut i = start;
    let mut acc: usize = 0;
    while i < end
        invariant
            start <= i <= end <= input@.len(),
            start < end,
            sub == input@.subrange(start as int, end as int),
            forall|j: int| 0 <= j < i - start ==> is_digit(sub[j]),
            acc == digits_value(sub.take(i - start)),
        decreases end - i,
    {
        proof {
            assert(sub[i - start] == input@[i as int]);
        }
        let b = input[i];
        if !(48 <= b && b <= 57) {
            proof {
                assert(!is_digit(sub[i - start]));
                assert(!all_digits(sub));
            }
            return None;
        }
        let d = (b - 48) as usize;
        proof {
            assert(sub.take(i - start + 1).drop_last() =~= sub.take(i - start));
            assert(sub.take(i - start + 1).last() == sub[i - start]);
            assert(digits_value(sub.take(i - start + 1)) == acc * 10 + d);
        }
        if acc > (usize::MAX - d) / 10 {
            proof {
                assert(acc * 10 + d > usize::MAX) by (nonlinear_arith)
                    requires
                        acc > (usize::MAX - d) / 10,
                        d <= usize::MAX,
                {}
                lemma_digits_value_prefix(sub, i - start + 1);
                assert(digits_value(sub) > usize::MAX);
            }
            return None;
        }
        proof {
            assert(acc * 10 + d <= usize::MAX) by (nonlinear_arith)
                requires
                    acc <= (usize::MAX - d) / 10,
                    d <= usize::MAX,
            {}
        }
        acc = acc * 10 + d;
        i = i + 1;
    }
    proof {
        assert(sub.take(end - start) =~= sub);
        assert(all_digits(sub));
        assert(parses_as_usize(sub));
    }
    Some(acc)
}

/// Tokenizer: the next token of `input` starts at `pos` and runs to the
/// returned index, which holds the token's delimiter. Fails with
/// `NeedMoreInput` when the input is exhausted before a delimiter, and with
/// `InvalidEncoding` when the token is not valid text.
pub fn header_token(input: &[u8], pos: usize) -> (r: Result<usize, Error>)
    requires
        pos <= input@.len(),
    ensures
        first_delim(input@.skip(pos as int)) == input@.len() - pos ==> r == Err::<
            usize,
            Error,
        >(Error::NeedMoreInput(1)),
        first_delim(input@.skip(pos as int)) < input@.len() - pos && !is_utf8(
            input@.subrange(pos as int, pos + first_delim(input@.skip(pos as int))),
        ) ==> r == Err::<usize, Error>(Error::InvalidEncoding),
        first_delim(input@.skip(pos as int)) < input@.len() - pos && is_utf8(
            input@.subrange(pos as int, pos + first_delim(input@.skip(pos as int))),
        ) ==> r is Ok,
        r matches Ok(end) ==> pos <= end < input@.len() && end - pos == first_delim(
            input@.skip(pos as int),
        ) && is_delim(input@[end as int]) && is_utf8(input@.subrange(pos as int, end as int)),
{
    let ghost tail = input@.skip(pos as int);
    proof {
        lemma_first_delim(tail);
        assert forall|k: int| 0 <= k < tail.len() implies tail[k] == input@[pos + k] by {}
    }
    let mut i = pos;
    while i < input.len()
        invariant
            pos <= i <= input@.len(),
            tail == input@.skip(pos as int),
            forall|j: int| pos <= j < i ==> !is_delim(input@[j]),
        ensures
            pos <= i <= input@.len(),
            forall|j: int| pos <= j < i ==> !is_delim(input@[j]),
            i == input@.len() || is_delim(input@[i as int]),
        decreases input@.len() - i,
    {
        let b = input[i];
        if b == 32u8 || b == 10u8 {
            break ;
        }
        i = i + 1;
    }
    proof {
        lemma_first_delim(tail);
        assert forall|k: int| 0 <= k < tail.len() implies tail[k] == input@[pos + k] by {}
        assert forall|j: int| 0 <= j < i - pos implies !is_delim(tail[j]) by {
            assert(tail[j] == input@[pos + j]);
        }
    }
    if i == input.len() {
        proof {
            assert(first_delim(tail) == tail.len());
        }
        return Err(Error::NeedMoreInput(1));
    }
    proof {
        assert(is_delim(input@[i as int]));
        assert(is_delim(tail[i - pos]));
        assert(first_delim(tail) == i - pos);
    }
    if valid_utf8_range(input, pos, i) {
        Ok(i)
    } else {
        Err(Error::InvalidEncoding)
    }
}

/// The decoded subset of a Y4M header line: frame width and height in
/// pixels, each 0 when absent or unparsable.
#[derive(Clone, Copy, Debug, PartialEq, Eq, Structural)]
pub struct Y4MHeader {
    pub width: usize,
    pub height: usize,
}

/// `s` begins with the format's magic signature, the ASCII literal
/// `YUV4MPEG2` followed by one space.
pub open spec fn starts_with_magic(s: Seq<u8>) -> bool {
    s.len() >= 10 && s[0] == 89u8 && s[1] == 85u8 && s[2] == 86u8 && s[3] == 52u8 && s[4] == 77u8
        && s[5] == 80u8 && s[6] == 69u8 && s[7] == 71u8 && s[8] == 50u8 && s[9] == 32u8
}

/// Token `t` sets the field keyed by `key`: its first byte is the key and
/// the remainder is a readable numeric value.
pub open spec fn token_sets(t: Seq<u8>, key: u8) -> bool {
    t.len() > 0 && t[0] == key && parses_as_usize(t.skip(1))
}

/// Value of the field keyed by `key` after token `t`: the token's value
/// when it sets the field, else the prior value `cur`.
pub open spec fn apply_token(t: Seq<u8>, key: u8, cur: nat) -> nat {
    if token_sets(t, key) {
        digits_value(t.skip(1))
    } else {
        cur
    }
}

/// Outcome of parsing a candidate header.
pub enum HeaderParse {
    /// The magic signature is absent.
    NotThisFormat,
    /// The line's terminating newline is not buffered yet.
    NeedMoreInput,
    /// Some token of the line is not valid text.
    BadText,
    /// The line parsed; `used` is the byte count through the newline.
    Done { width: nat, height: nat, used: nat },
}

/// Parses the token run `s` (the input past the magic), with `w` and `h`
/// the fields read so far and `used` the bytes consumed so far.
pub open spec fn parse_line(s: Seq<u8>, w: nat, h: nat, used: nat) -> HeaderParse
    decreases s.len(),
{
    let fd = first_delim(s);
    if fd >= s.len() {
        HeaderParse::NeedMoreInput
    } else if !is_utf8(s.take(fd as int)) {
        HeaderParse::BadText
    } else {
        let t = s.take(fd as int);
        let w1 = apply_token(t, 87u8, w);
        let h1 = apply_token(t, 72u8, h);
        if s[fd as int] == 10u8 {
            HeaderParse::Done { width: w1, height: h1, used: (used + fd + 1) as nat }
        } else {
            parse_line(s.skip(fd as int + 1), w1, h1, (used + fd + 1) as nat)
        }
    }
}

/// What a candidate header `s` parses to.
pub open spec fn parse_header(s: Seq<u8>) -> HeaderParse {
    if !starts_with_magic(s) {
        HeaderParse::NotThisFormat
    } else {
        parse_line(s.skip(10), 0, 0, 10)
    }
}

/// The error a failed parse outcome surfaces.
pub open spec fn err_of(p: HeaderParse) -> Error {
    match p {
        HeaderParse::NotThisFormat => Error::NotThisFormat,
        HeaderParse::NeedMoreInput => Error::NeedMoreInput(1),
        HeaderParse::BadText => Error::InvalidEncoding,
        HeaderParse::Done { .. } => Error::NotThisFormat,
    }
}

/// Checks the 10-byte magic signature.
fn check_magic(input: &[u8]) -> (r: bool)
    ensures
        r == starts_with_magic(input@),
{
    input.len() >= 10 && input[0] == 89u8 && input[1] == 85u8 && input[2] == 86u8 && input[3]
        == 52u8 && input[4] == 77u8 && input[5] == 80u8 && input[6] == 69u8 && input[7] == 71u8
        && input[8] == 50u8 && input[9] == 32u8
}

/// Parses a candidate header: requires the magic signature, reads the
/// space-separated tokens of the line, setting `width` and `height` from
/// the last readable `W` and `H` values, and returns the header record
/// together with the count of bytes consumed through the terminating
/// newline.
pub fn header(input: &[u8]) -> (r: Result<(Y4MHeader, usize), Error>)
    ensures
        parse_header(input@) matches HeaderParse::Done { width, height, used } ==> (r matches Ok(p)
            && p.0.width as nat == width && p.0.height as nat == height && p.1 as nat == used),
        !(parse_header(input@) is Done) ==> r == Err::<(Y4MHeader, usize), Error>(
            err_of(parse_header(input@)),
        ),
{
    if !check_magic(input) {
        return Err(Error::NotThisFormat);
    }
    let mut pos: usize = 10;
    let mut width: usize = 0;
    let mut height: usize = 0;
    loop
        invariant
            10 <= pos <= input@.len(),
            starts_with_magic(input@),
            parse_header(input@) == parse_line(
                input@.skip(pos as int),
                width as nat,
                height as nat,
                pos as nat,
            ),
        decreases input@.len() - pos,
    {
        let ghost s = input@.skip(pos as int);
        let ghost fd = first_delim(s);
        proof {
            lemma_first_delim(s);
            assert forall|k: int| 0 <= k < s.len() implies s[k] == input@[pos + k] by {}
        }
        let end = match header_token(input, pos) {
            Ok(end) => end,
            Err(e) => {
                proof {
                    if fd == s.len() {
                        assert(parse_line(s, width as nat, height as nat, pos as nat)
                            == HeaderParse::NeedMoreInput);
                    } else {
                        assert(s.take(fd as int) =~= input@.subrange(pos as int, pos + fd));
                        assert(parse_line(s, width as nat, height as nat, pos as nat)
                            == HeaderParse::BadText);
                    }
                }
                return Err(e);
            },
        };
        let ghost t = s.take(fd as int);
        proof {
            assert(fd == end - pos);
            assert(t =~= input@.subrange(pos as int, end as int));
            if end > pos {
                assert(t.skip(1) =~= input@.subrange(pos + 1, end as int));
            }
        }
        let w1: usize;
        let h1: usize;
        if end > pos && input[pos] == 87u8 {
            w1 = match parse_number(input, pos + 1, end) {
                Some(v) => v,
                None => width,
            };
            h1 = height;
            proof {
                assert(t[0] == input@[pos as int]);
                assert(w1 as nat == apply_token(t, 87u8, width as nat));
                assert(!token_sets(t, 72u8));
            }
        } else if end > pos && input[pos] == 72u8 {
            h1 = match parse_number(input, pos + 1, end) {
                Some(v) => v,
                None => height,
            };
            w1 = width;
            proof {
                assert(t[0] == input@[pos as int]);
                assert(h1 as nat == apply_token(t, 72u8, height as nat));
                assert(!token_sets(t, 87u8));
            }
        } else {
            w1 = width;
            h1 = height;
            proof {
                if t.len() > 0 {
                    assert(t[0] == input@[pos as int]);
                }
                assert(!token_sets(t, 87u8));
                assert(!token_sets(t, 72u8));
            }
        }
        proof {
            assert(is_utf8(t));
            assert(s[fd as int] == input@[end as int]);
        }
        if input[end] == 10u8 {
            proof {
                assert(parse_line(s, width as nat, height as nat, pos as nat)
                    == (HeaderParse::Done {
                    width: w1 as nat,
                    height: h1 as nat,
                    used: (end + 1) as nat,
                }));
            }
            return Ok((Y4MHeader { width: w1, height: h1 }, end + 1));
        }
        proof {
            assert(s.skip(fd as int + 1) =~= input@.skip(end + 1));
            assert(parse_line(s, width as nat, height as nat, pos as nat) == parse_line(
                input@.skip(end + 1),
                w1 as nat,
                h1 as nat,
                (end + 1) as nat,
            ));
        }
        width = w1;
        height = h1;
        pos = end + 1;
    }
}

/// Confidence that a probed prefix belongs to this format.
pub open spec fn spec_probe(s: Seq<u8>) -> int {
    if s.len() >= 11 && starts_with_magic(s) {
        10
    } else {
        0
    }
}

/// Format-probe heuristic: a prefix of at least 11 bytes that carries the
/// magic signature scores 10; anything else, a too-short prefix included,
/// scores 0.
pub fn probe(data: &[u8]) -> (r: u8)
    ensures
        r as int == spec_probe(data@),
{
    if data.len() >= 11 && check_magic(data) {
        10
    } else {
        0
    }
}

/// Magic recognition: an input that does not begin with the magic
/// signature scores zero confidence with the probe, and the header parse
/// rejects it as not this format.
pub proof fn lemma_magic_recognition(s: Seq<u8>)
    requires
        !starts_with_magic(s),
    ensures
        spec_probe(s) == 0,
        parse_header(s) == HeaderParse::NotThisFormat,
{
}

/// The tokens of the header line `s`, through its terminating newline.
pub open spec fn token_list(s: Seq<u8>) -> Seq<Seq<u8>>
    decreases s.len(),
{
    let fd = first_delim(s);
    if fd >= s.len() {
        Seq::empty()
    } else if s[fd as int] == 10u8 {
        seq![s.take(fd as int)]
    } else {
        seq![s.take(fd as int)] + token_list(s.skip(fd as int + 1))
    }
}

/// Some token of `ts` sets the field keyed by `key`.
pub open spec fn sets_field(ts: Seq<Seq<u8>>, key: u8) -> bool
    decreases ts.len(),
{
    if ts.len() == 0 {
        false
    } else {
        token_sets(ts.last(), key) || sets_field(ts.drop_last(), key)
    }
}

/// Numeric value of the last token of `ts` that sets the field keyed by
/// `key`.
pub open spec fn last_field_value(ts: Seq<Seq<u8>>, key: u8) -> nat
    decreases ts.len(),
{
    if ts.len() == 0 {
        0
    } else if token_sets(ts.last(), key) {
        digits_value(ts.last().skip(1))
    } else {
        last_field_value(ts.drop_last(), key)
    }
}

/// The field keyed by `key` after the tokens `ts` run, starting at `dflt`.
pub open spec fn field_result(ts: Seq<Seq<u8>>, key: u8, dflt: nat) -> nat {
    if sets_field(ts, key) {
        last_field_value(ts, key)
    } else {
        dflt
    }
}

proof fn lemma_field_result_cons(t: Seq<u8>, ts: Seq<Seq<u8>>, key: u8, dflt: nat)
    ensures
        field_result(seq![t] + ts, key, dflt) == field_result(ts, key, apply_token(t, key, dflt)),
    decreases ts.len(),
{
    let cs = seq![t] + ts;
    if ts.len() == 0 {
        assert(cs =~= seq![t]);
        assert(cs.len() == 1);
        assert(cs.last() == t);
        assert(cs.drop_last() =~= Seq::<Seq<u8>>::empty());
        assert(!sets_field(cs.drop_last(), key));
        assert(sets_field(cs, key) == token_sets(t, key));
        if token_sets(t, key) {
            assert(last_field_value(cs, key) == digits_value(t.skip(1)));
        }
        assert(!sets_field(ts, key));
    } else {
        lemma_field_result_cons(t, ts.drop_last(), key, dflt);
        assert(cs.last() == ts.last());
        assert(cs.drop_last() =~= seq![t] + ts.drop_last());
        if token_sets(ts.last(), key) {
            assert(sets_field(cs, key));
            assert(sets_field(ts, key));
            assert(last_field_value(cs, key) == digits_value(ts.last().skip(1)));
            assert(last_field_value(ts, key) == digits_value(ts.last().skip(1)));
        } else {
            assert(sets_field(cs, key) == sets_field(cs.drop_last(), key));
            assert(last_field_value(cs, key) == last_field_value(cs.drop_last(), key));
            assert(sets_field(ts, key) == sets_field(ts.drop_last(), key));
            assert(last_field_value(ts, key) == last_field_value(ts.drop_last(), key));
            assert(field_result(cs, key, dflt) == field_result(cs.drop_last(), key, dflt));
        }
    }
}

proof fn lemma_parse_line_fields(s: Seq<u8>, w: nat, h: nat, u: nat)
    requires
        parse_line(s, w, h, u) is Done,
    ensures
        parse_line(s, w, h, u) matches HeaderParse::Done { width, height, .. } ==> width
            == field_result(token_list(s), 87u8, w) && height == field_result(
            token_list(s),
            72u8,
            h,
        ),
    decreases s.len(),
{
    let fd = first_delim(s);
    lemma_first_delim(s);
    let t = s.take(fd as int);
    if fd < s.len() && is_utf8(t) {
        let w1 = apply_token(t, 87u8, w);
        let h1 = apply_token(t, 72u8, h);
        if s[fd as int] == 10u8 {
            assert(token_list(s) =~= seq![t]);
            assert(seq![t].last() == t);
            assert(seq![t].drop_last() =~= Seq::<Seq<u8>>::empty());
            assert(!sets_field(seq![t].drop_last(), 87u8));
            assert(!sets_field(seq![t].drop_last(), 72u8));
            assert(field_result(seq![t], 87u8, w) == apply_token(t, 87u8, w));
            assert(field_result(seq![t], 72u8, h) == apply_token(t, 72u8, h));
        } else {
            let s2 = s.skip(fd as int + 1);
            assert(parse_line(s, w, h, u) == parse_line(s2, w1, h1, (u + fd + 1) as nat));
            lemma_parse_line_fields(s2, w1, h1, (u + fd + 1) as nat);
            lemma_field_result_cons(t, token_list(s2), 87u8, w);
            lemma_field_result_cons(t, token_list(s2), 72u8, h);
            assert(token_list(s) == seq![t] + token_list(s2));
        }
    }
}

/// Field extraction is order independent: on a successful parse, the width
/// and the height equal the numeric value of the last `W` and the last `H`
/// token whose value reads as a number, in whatever order and among
/// whatever other tokens those stood, or 0 where no such token occurs.
/// Tokens with any other key, and `W`/`H` tokens whose value does not read
/// as a number, have no effect on the result.
pub proof fn lemma_field_order_independence(s: Seq<u8>)
    requires
        parse_header(s) is Done,
    ensures
        parse_header(s) matches HeaderParse::Done { width, height, .. } ==> width == field_result(
            token_list(s.skip(10)),
            87u8,
            0,
        ) && height == field_result(token_list(s.skip(10)), 72u8, 0),
{
    lemma_parse_line_fields(s.skip(10), 0, 0, 10);
}

proof fn lemma_parse_line_offset(s: Seq<u8>, w: nat, h: nat, u: nat)
    requires
        parse_line(s, w, h, u) is Done,
    ensures
        parse_line(s, w, h, u) matches HeaderParse::Done { used, .. } ==> u < used <= u + s.len()
            && s[used - u - 1] == 10u8 && (forall|j: int|
            0 <= j < used - u - 1 ==> s[j] != 10u8),
    decreases s.len(),
{
    let fd = first_delim(s);
    lemma_first_delim(s);
    let t = s.take(fd as int);
    if fd < s.len() && is_utf8(t) {
        let w1 = apply_token(t, 87u8, w);
        let h1 = apply_token(t, 72u8, h);
        if s[fd as int] == 10u8 {
            assert forall|j: int| 0 <= j < fd implies s[j] != 10u8 by {
                assert(!is_delim(s[j]));
            }
        } else {
            let s2 = s.skip(fd as int + 1);
            lemma_parse_line_offset(s2, w1, h1, (u + fd + 1) as nat);
            match parse_line(s2, w1, h1, (u + fd + 1) as nat) {
                HeaderParse::Done { used, .. } => {
                    assert(s2[used - (u + fd + 1) - 1] == s[used - u - 1]);
                    assert forall|j: int| 0 <= j < used - u - 1 implies s[j] != 10u8 by {
                        if j < fd {
                            assert(!is_delim(s[j]));
                        } else if j == fd {
                        } else {
                            assert(s2[j - fd - 1] == s[j]);
                        }
                    }
                },
                _ => {},
            }
        }
    }
}

/// Consumed-offset correctness: the byte count of a successful parse points
/// exactly one past the first newline of the input, the header line's
/// terminator, and never beyond it.
pub proof fn lemma_consumed_offset(s: Seq<u8>)
    requires
        parse_header(s) is Done,
    ensures
        parse_header(s) matches HeaderParse::Done { used, .. } ==> 10 < used <= s.len() && s[used
            - 1] == 10u8 && (forall|j: int| 0 <= j < used - 1 ==> s[j] != 10u8),
{
    lemma_parse_line_offset(s.skip(10), 0, 0, 10);
    match parse_header(s) {
        HeaderParse::Done { used, .. } => {
            assert(s.skip(10)[used - 10 - 1] == s[used - 1]);
            assert forall|j: int| 0 <= j < used - 1 implies s[j] != 10u8 by {
                if j >= 10 {
                    assert(s.skip(10)[j - 10] == s[j]);
                }
            }
        },
        _ => {},
    }
}

/// The buffered input holds the header line's terminating newline.
pub open spec fn line_terminated(s: Seq<u8>) -> bool {
    exists|i: int| 10 <= i < s.len() && s[i] == 10u8
}

/// Every token of the header line of `s` is valid text.
pub open spec fn tokens_are_text(s: Seq<u8>) -> bool {
    forall|i: int|
        0 <= i < token_list(s.skip(10)).len() ==> is_utf8(token_list(s.skip(10))[i])
}

proof fn lemma_parse_line_success(s: Seq<u8>, w: nat, h: nat, u: nat)
    ensures
        parse_line(s, w, h, u) is Done <==> ((exists|i: int| 0 <= i < s.len() && s[i] == 10u8) && (
        forall|i: int| 0 <= i < token_list(s).len() ==> is_utf8(token_list(s)[i]))),
    decreases s.len(),
{
    let fd = first_delim(s);
    lemma_first_delim(s);
    let t = s.take(fd as int);
    let ts = token_list(s);
    if fd >= s.len() {
        assert forall|i: int| 0 <= i < s.len() implies s[i] != 10u8 by {
            assert(!is_delim(s[i]));
        }
    } else if !is_utf8(t) {
        assert(ts[0] == t);
        assert(!is_utf8(ts[0]));
    } else if s[fd as int] == 10u8 {
        assert(ts =~= seq![t]);
        assert forall|i: int| 0 <= i < ts.len() implies is_utf8(ts[i]) by {
            assert(ts[i] == t);
        }
    } else {
        let s2 = s.skip(fd as int + 1);
        let ts2 = token_list(s2);
        lemma_parse_line_success(s2, apply_token(t, 87u8, w), apply_token(t, 72u8, h), (u + fd
            + 1) as nat);
        assert(ts =~= seq![t] + ts2);
        assert(s[fd as int] == 32u8);
        if exists|i: int| 0 <= i < s.len() && s[i] == 10u8 {
            let i = choose|i: int| 0 <= i < s.len() && s[i] == 10u8;
            assert(is_delim(s[i]));
            assert(i > fd);
            assert(s2[i - fd - 1] == 10u8);
        }
        if exists|k: int| 0 <= k < s2.len() && s2[k] == 10u8 {
            let k = choose|k: int| 0 <= k < s2.len() && s2[k] == 10u8;
            assert(s[fd + 1 + k] == 10u8);
        }
        assert forall|i: int| 0 <= i < ts2.len() implies ts2[i] == ts[i + 1] by {}
        if forall|i: int| 0 <= i < ts.len() ==> is_utf8(ts[i]) {
            assert forall|i: int| 0 <= i < ts2.len() implies is_utf8(ts2[i]) by {
                assert(ts2[i] == ts[i + 1]);
            }
        }
        if forall|i: int| 0 <= i < ts2.len() ==> is_utf8(ts2[i]) {
            assert forall|i: int| 0 <= i < ts.len() implies is_utf8(ts[i]) by {
                if i == 0 {
                    assert(ts[0] == t);
                } else {
                    assert(ts[i] == ts2[i - 1]);
                }
            }
        }
    }
}

/// Tolerant parsing: the parse succeeds exactly when the magic signature is
/// present, the buffered input holds the line's terminating newline, and
/// every token is valid text. Whether a `W` or `H` value reads as a number
/// plays no role in success: a malformed value leaves its field at the
/// default instead of failing the parse.
pub proof fn lemma_parse_success_condition(s: Seq<u8>)
    ensures
        parse_header(s) is Done <==> (starts_with_magic(s) && line_terminated(s)
            && tokens_are_text(s)),
{
    if starts_with_magic(s) {
        lemma_parse_line_success(s.skip(10), 0, 0, 10);
        let s1 = s.skip(10);
        if exists|i: int| 10 <= i < s.len() && s[i] == 10u8 {
            let i = choose|i: int| 10 <= i < s.len() && s[i] == 10u8;
            assert(s1[i - 10] == 10u8);
        }
        if exists|k: int| 0 <= k < s1.len() && s1[k] == 10u8 {
            let k = choose|k: int| 0 <= k < s1.len() && s1[k] == 10u8;
            assert(s[k + 10] == 10u8);
        }
    }
}

} // verus!
