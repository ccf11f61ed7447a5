//! Text handling: decoding meta-event bytes, whitespace trimming and decimal numbers.
use vstd::prelude::*;

verus! {

broadcast use vstd::string::group_string_axioms;

/// `String::push` appends one character.
pub assume_specification[ String::push ](s: &mut String, ch: char)
    ensures
        final(s)@ == old(s)@.push(ch),
;

/// What `String::from_utf8_lossy` makes of a byte string: its UTF-8 decoding, with
/// each invalid sequence replaced by U+FFFD.
pub uninterp spec fn utf8_lossy(bytes: Seq<u8>) -> Seq<char>;

/// Decodes bytes as UTF-8, replacing invalid sequences with U+FFFD
/// (`String::from_utf8_lossy`; the result depends on the bytes alone, and valid UTF-8
/// comes back unchanged, as its documentation says).
#[verifier::external_body]
fn decode_utf8_lossy(data: &[u8]) -> (s: String)
    ensures
        s@ == utf8_lossy(data@),
        vstd::utf8::valid_utf8(data@) ==> s@ == vstd::utf8::decode_utf8(data@),
{
    String::from_utf8_lossy(data).into_owned()
}

/// Unicode's White_Space property, which `char::is_whitespace` and `str::trim` use.
pub open spec fn is_white_space(c: char) -> bool {
    let u = c as u32;
    (0x09 <= u <= 0x0D) || u == 0x20 || u == 0x85 || u == 0xA0 || u == 0x1680 || (0x2000 <= u
        <= 0x200A) || u == 0x2028 || u == 0x2029 || u == 0x202F || u == 0x205F || u == 0x3000
}

/// Whether `c` has Unicode's White_Space property.
pub fn is_white_space_char(c: char) -> (b: bool)
    ensures
        b == is_white_space(c),
{
    let u = c as u32;
    (0x09 <= u && u <= 0x0D) || u == 0x20 || u == 0x85 || u == 0xA0 || u == 0x1680 || (0x2000 <= u
        && u <= 0x200A) || u == 0x2028 || u == 0x2029 || u == 0x202F || u == 0x205F || u == 0x3000
}

/// `s` without its leading white space.
pub open spec fn trim_start(s: Seq<char>) -> Seq<char>
    decreases s.len(),
{
    if s.len() > 0 && is_white_space(s[0]) {
        trim_start(s.drop_first())
    } else {
        s
    }
}

/// `s` without its trailing white space.
pub open spec fn trim_end(s: Seq<char>) -> Seq<char>
    decreases s.len(),
{
    if s.len() > 0 && is_white_space(s.last()) {
        trim_end(s.drop_last())
    } else {
        s
    }
}

/// `s` without leading and trailing white space (what `str::trim` returns).
pub open spec fn trim(s: Seq<char>) -> Seq<char> {
    trim_end(trim_start(s))
}

/// `s` without its NUL characters.
pub open spec fn without_nul(s: Seq<char>) -> Seq<char> {
    s.filter(|c: char| c != '\0')
}

/// Text with its NUL characters removed, then surrounding white space trimmed.
pub open spec fn clean_text(s: Seq<char>) -> Seq<char> {
    trim(without_nul(s))
}

/// The text of a meta event: its bytes decoded (invalid UTF-8 replaced), NUL
/// characters removed, then surrounding white space trimmed.
pub open spec fn spec_sanitize_text(data: Seq<u8>) -> Seq<char> {
    clean_text(utf8_lossy(data))
}

proof fn lemma_trim_start_shape(s: Seq<char>)
    ensures
        exists|lo: int| 0 <= lo <= s.len() && trim_start(s) == #[trigger] s.subrange(lo, s.len() as int),
        trim_start(s).len() > 0 ==> !is_white_space(trim_start(s)[0]),
    decreases s.len(),
{
    if s.len() > 0 && is_white_space(s[0]) {
        let t = s.drop_first();
        lemma_trim_start_shape(t);
        let lo = choose|lo: int| 0 <= lo <= t.len() && trim_start(t) == #[trigger] t.subrange(lo, t.len() as int);
        assert(t.subrange(lo, t.len() as int) == s.subrange(lo + 1, s.len() as int));
    } else {
        assert(s.subrange(0, s.len() as int) == s);
    }
}

proof fn lemma_trim_end_shape(s: Seq<char>)
    ensures
        exists|hi: int| 0 <= hi <= s.len() && trim_end(s) == #[trigger] s.subrange(0, hi),
        trim_end(s).len() > 0 ==> !is_white_space(trim_end(s).last()),
    decreases s.len(),
{
    if s.len() > 0 && is_white_space(s.last()) {
        let t = s.drop_last();
        lemma_trim_end_shape(t);
        let hi = choose|hi: int| 0 <= hi <= t.len() && trim_end(t) == #[trigger] t.subrange(0, hi);
        assert(t.subrange(0, hi) == s.subrange(0, hi));
    } else {
        assert(s.subrange(0, s.len() as int) == s);
    }
}

proof fn lemma_without_nul_of_nul_free(s: Seq<char>)
    requires
        forall|i: int| 0 <= i < s.len() ==> #[trigger] s[i] != '\0',
    ensures
        without_nul(s) == s,
    decreases s.len(),
{
    if s.len() == 0 {
        reveal(Seq::filter);
    } else {
        let t = s.drop_last();
        lemma_without_nul_of_nul_free(t);
        assert(t.push(s.last()) == s);
        t.lemma_filter_push(s.last(), |c: char| c != '\0');
    }
}

/// Law: cleaning text twice gives what cleaning it once gives: the result has no NUL
/// and no surrounding white space left. With the UTF-8 round trip of `vstd`
/// (`decode_utf8(encode_utf8(t)) == t`) and the valid-UTF-8 clause of
/// `sanitize_text`, cleaning the bytes of cleaned text returns that text.
pub proof fn lemma_clean_text_idempotent(s: Seq<char>)
    ensures
        clean_text(clean_text(s)) == clean_text(s),
        forall|i: int| 0 <= i < clean_text(s).len() ==> #[trigger] clean_text(s)[i] != '\0',
{
    let w = without_nul(s);
    assert forall|i: int| 0 <= i < w.len() implies #[trigger] w[i] != '\0' by {
        s.lemma_filter_pred(|c: char| c != '\0', i);
    }
    let u = trim_start(w);
    lemma_trim_start_shape(w);
    let lo = choose|lo: int| 0 <= lo <= w.len() && u == #[trigger] w.subrange(lo, w.len() as int);
    let r = trim_end(u);
    lemma_trim_end_shape(u);
    let hi = choose|hi: int| 0 <= hi <= u.len() && r == #[trigger] u.subrange(0, hi);
    assert forall|i: int| 0 <= i < r.len() implies #[trigger] r[i] != '\0' by {
        assert(r[i] == w[lo + i]);
    }
    lemma_without_nul_of_nul_free(r);
    if r.len() > 0 {
        assert(r[0] == u[0]);
    }
    assert(trim_start(r) == r);
    assert(trim_end(r) == r);
}

proof fn lemma_trim_start_skip(s: Seq<char>, lo: int)
    requires
        0 <= lo <= s.len(),
        forall|i: int| 0 <= i < lo ==> is_white_space(#[trigger] s[i]),
        lo < s.len() ==> !is_white_space(s[lo]),
    ensures
        trim_start(s) == s.subrange(lo, s.len() as int),
    decreases lo,
{
    if lo > 0 {
        let t = s.drop_first();
        assert forall|i: int| 0 <= i < lo - 1 implies is_white_space(#[trigger] t[i]) by {
            assert(t[i] == s[i + 1]);
        }
        lemma_trim_start_skip(t, lo - 1);
        assert(t.subrange(lo - 1, t.len() as int) == s.subrange(lo, s.len() as int));
    } else {
        assert(s.subrange(0, s.len() as int) == s);
    }
}

proof fn lemma_trim_end_skip(s: Seq<char>, hi: int)
    requires
        0 <= hi <= s.len(),
        forall|i: int| hi <= i < s.len() ==> is_white_space(#[trigger] s[i]),
        hi > 0 ==> !is_white_space(s[hi - 1]),
    ensures
        trim_end(s) == s.subrange(0, hi),
    decreases s.len() - hi,
{
    if hi < s.len() {
        let t = s.drop_last();
        assert forall|i: int| hi <= i < t.len() implies is_white_space(#[trigger] t[i]) by {
            assert(t[i] == s[i]);
        }
        lemma_trim_end_skip(t, hi);
        assert(t.subrange(0, hi) == s.subrange(0, hi));
    } else {
        assert(s.subrange(0, hi) == s);
    }
}

/// Cleans the text of a meta event: decodes it (replacing invalid UTF-8), drops NUL
/// characters and trims surrounding white space.
pub fn sanitize_text(data: &[u8]) -> (text: String)
    ensures
        text@ == spec_sanitize_text(data@),
        vstd::utf8::valid_utf8(data@) ==> text@ == clean_text(vstd::utf8::decode_utf8(data@)),
{
    let decoded = decode_utf8_lossy(data);
    let ghost chars = decoded@;
    let mut kept: Vec<char> = Vec::new();
    for c in it: decoded.as_str().chars()
        invariant
            chars == decoded@,
            it.seq() == chars,
            kept@ == without_nul(chars.take(it.index() as int)),
    {
        proof {
            assert(chars.take(it.index() + 1) == chars.take(it.index() as int).push(c));
            chars.take(it.index() as int).lemma_filter_push(c, |c: char| c != '\0');
        }
        if c != '\0' {
            kept.push(c);
        }
    }
    proof {
        assert(chars.take(chars.len() as int) == chars);
    }
    let ghost s = kept@;
    let n = kept.len();
    let mut lo: usize = 0;
    while lo < n && is_white_space_char(kept[lo])
        invariant
            n == kept.len(),
            lo <= n,
            forall|i: int| 0 <= i < lo ==> is_white_space(#[trigger] kept@[i]),
        decreases n - lo,
    {
        lo = lo + 1;
    }
    proof {
        lemma_trim_start_skip(s, lo as int);
    }
    let mut hi: usize = n;
    while hi > lo && is_white_space_char(kept[hi - 1])
        invariant
            n == kept.len(),
            lo <= hi <= n,
            forall|i: int| hi <= i < n ==> is_white_space(#[trigger] kept@[i]),
        decreases hi,
    {
        hi = hi - 1;
    }
    proof {
        let t = s.subrange(lo as int, n as int);
        assert forall|i: int| hi - lo <= i < t.len() implies is_white_space(#[trigger] t[i]) by {
            assert(t[i] == s[lo + i]);
        }
        if hi > lo {
            assert(t[hi - lo - 1] == s[hi - 1]);
        }
        lemma_trim_end_skip(t, hi - lo);
        assert(t.subrange(0, hi - lo) == s.subrange(lo as int, hi as int));
    }
    let mut text = String::new();
    let mut i: usize = lo;
    while i < hi
        invariant
            lo <= i <= hi <= n,
            n == kept.len(),
            text@ == kept@.subrange(lo as int, i as int),
        decreases hi - i,
    {
        text.push(kept[i]);
        proof {
            assert(kept@.subrange(lo as int, i + 1) == kept@.subrange(lo as int, i as int).push(
                kept@[i as int],
            ));
        }
        i = i + 1;
    }
    text
}

/// The character of decimal digit `d`.
pub open spec fn digit_char(d: nat) -> char {
    (('0' as u32) + d) as char
}

/// The decimal representation of `n`, without leading zeros.
pub open spec fn decimal(n: nat) -> Seq<char>
    decreases n,
{
    if n < 10 {
        seq![digit_char(n)]
    } else {
        decimal(n / 10).push(digit_char(n % 10))
    }
}

fn digit(d: u64) -> (c: char)
    requires
        d < 10,
    ensures
        c == digit_char(d as nat),
{
    match d {
        0 => '0',
        1 => '1',
        2 => '2',
        3 => '3',
        4 => '4',
        5 => '5',
        6 => '6',
        7 => '7',
        8 => '8',
        _ => '9',
    }
}

/// Appends the decimal representation of `n`.
pub fn push_decimal(s: &mut String, n: u64)
    ensures
        final(s)@ == old(s)@ + decimal(n as nat),
    decreases n,
{
    if n >= 10 {
        push_decimal(s, n / 10);
    }
    s.push(digit(n % 10));
    proof {
        if n < 10 {
            assert(old(s)@ + decimal(n as nat) == old(s)@.push(digit_char(n as nat)));
        }
    }
}

} // verus!
