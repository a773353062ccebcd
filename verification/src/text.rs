use std::collections::hash_map::DefaultHasher;
use std::hash::{Hash, Hasher};
use vstd::prelude::*;
use vstd::std_specs::hash::DefaultHasherAdditionalSpecFns;
use vstd::utf8::{
    decode_utf8, encode_scalar, encode_utf8, is_char_boundary, length_of_first_scalar,
    pop_first_scalar, valid_utf8,
};

verus! {

/// Whether `c` has the Unicode `White_Space` property: U+0009 to U+000D,
/// U+0020, U+0085, U+00A0, U+1680, U+2000 to U+200A, U+2028, U+2029, U+202F,
/// U+205F and U+3000.
pub open spec fn unicode_whitespace(c: char) -> bool {
    let u = c as u32;
    ||| 0x9 <= u <= 0xd
    ||| u == 0x20
    ||| u == 0x85
    ||| u == 0xa0
    ||| u == 0x1680
    ||| 0x2000 <= u <= 0x200a
    ||| u == 0x2028
    ||| u == 0x2029
    ||| u == 0x202f
    ||| u == 0x205f
    ||| u == 0x3000
}

/// Whether `c` has the Unicode `White_Space` property, as
/// `char::is_whitespace` answers.
pub fn is_whitespace(c: char) -> (b: bool)
    ensures
        b == unicode_whitespace(c),
{
    let u = c as u32;
    (0x9 <= u && u <= 0xd) || u == 0x20 || u == 0x85 || u == 0xa0 || u == 0x1680 || (0x2000 <= u
        && u <= 0x200a) || u == 0x2028 || u == 0x2029 || u == 0x202f || u == 0x205f || u == 0x3000
}

/// The characters of `s` that are not whitespace, in order.
pub open spec fn non_blank(s: Seq<char>) -> Seq<char>
    decreases s.len(),
{
    if s.len() == 0 {
        Seq::empty()
    } else if unicode_whitespace(s.last()) {
        non_blank(s.drop_last())
    } else {
        non_blank(s.drop_last()).push(s.last())
    }
}

/// Appending whitespace leaves the non-blank characters unchanged; appending
/// anything else appends it.
pub proof fn lemma_non_blank_push(s: Seq<char>, c: char)
    ensures
        non_blank(s.push(c)) == if unicode_whitespace(c) {
            non_blank(s)
        } else {
            non_blank(s).push(c)
        },
{
    assert(s.push(c).drop_last() =~= s);
}

/// The non-blank characters of a prefix are a prefix of the non-blank
/// characters of a longer prefix.
pub proof fn lemma_non_blank_prefix(s: Seq<char>, k: int, n: int)
    requires
        0 <= k <= n <= s.len(),
    ensures
        non_blank(s.take(k)).len() <= non_blank(s.take(n)).len(),
        non_blank(s.take(n)).take(non_blank(s.take(k)).len() as int) == non_blank(s.take(k)),
    decreases n - k,
{
    if k == n {
        assert(non_blank(s.take(n)).take(non_blank(s.take(k)).len() as int) =~= non_blank(
            s.take(k),
        ));
    } else {
        lemma_non_blank_prefix(s, k, n - 1);
        assert(s.take(n) =~= s.take(n - 1).push(s[n - 1]));
        lemma_non_blank_push(s.take(n - 1), s[n - 1]);
        let a = non_blank(s.take(k));
        let b = non_blank(s.take(n - 1));
        let c = non_blank(s.take(n));
        assert(c.take(a.len() as int) =~= b.take(a.len() as int));
    }
}


/// The words of `s`: its maximal runs of non-whitespace characters, in order.
pub open spec fn words(s: Seq<char>) -> Seq<Seq<char>>
    decreases s.len(),
{
    if s.len() == 0 {
        Seq::empty()
    } else if unicode_whitespace(s.last()) {
        words(s.drop_last())
    } else if s.len() >= 2 && !unicode_whitespace(s[s.len() - 2]) {
        let w = words(s.drop_last());
        w.update(w.len() - 1, w.last().push(s.last()))
    } else {
        words(s.drop_last()).push(seq![s.last()])
    }
}

/// Calls `str::split_whitespace` and copies each word; the contract claims the
/// words of `s` in order.
#[verifier::external_body]
pub(crate) fn split_words(s: &str) -> (w: Vec<String>)
    ensures
        w@.len() == words(s@).len(),
        forall|i: int| 0 <= i < w@.len() ==> #[trigger] w@[i]@ == words(s@)[i],
{
    s.split_whitespace().map(str::to_string).collect()
}

/// `s` without its leading whitespace.
pub open spec fn trim_start(s: Seq<char>) -> Seq<char>
    decreases s.len(),
{
    if s.len() > 0 && unicode_whitespace(s[0]) {
        trim_start(s.drop_first())
    } else {
        s
    }
}

/// `s` without its trailing whitespace.
pub open spec fn trim_end(s: Seq<char>) -> Seq<char>
    decreases s.len(),
{
    if s.len() > 0 && unicode_whitespace(s.last()) {
        trim_end(s.drop_last())
    } else {
        s
    }
}

/// `s` without its leading and trailing whitespace.
pub open spec fn trim(s: Seq<char>) -> Seq<char> {
    trim_end(trim_start(s))
}

/// Calls `str::trim` and copies the result; the contract claims `s` without
/// its leading and trailing whitespace.
#[verifier::external_body]
pub(crate) fn trim_text(s: &str) -> (r: String)
    ensures
        r@ == trim(s@),
{
    s.trim().to_string()
}

/// Whether every character of `d` is an ASCII decimal digit.
pub open spec fn all_digits(d: Seq<char>) -> bool {
    forall|i: int| 0 <= i < d.len() ==> '0' <= #[trigger] d[i] <= '9'
}

/// The number that the decimal digits `d` spell, most significant first.
pub open spec fn digits_value(d: Seq<char>) -> nat
    decreases d.len(),
{
    if d.len() == 0 {
        0
    } else {
        digits_value(d.drop_last()) * 10 + ((d.last() as nat) - ('0' as nat)) as nat
    }
}

/// What `u64::from_str` accepts: an optional `+` followed by one or more
/// decimal digits whose value fits in a `u64`.
pub open spec fn parse_u64_spec(s: Seq<char>) -> Option<u64> {
    let d = if s.len() > 0 && s[0] == '+' {
        s.drop_first()
    } else {
        s
    };
    if d.len() > 0 && all_digits(d) && digits_value(d) <= u64::MAX {
        Some(digits_value(d) as u64)
    } else {
        None
    }
}

/// Calls `str::parse::<u64>`, which the standard library documents as
/// accepting an optional `+` sign followed by only digits and rejecting
/// overflow; the contract claims exactly that.
#[verifier::external_body]
pub(crate) fn parse_u64(s: &str) -> (r: Option<u64>)
    ensures
        r == parse_u64_spec(s@),
{
    s.parse::<u64>().ok()
}

/// The decimal digit of `d`, which is below ten.
pub open spec fn digit_char(d: nat) -> char {
    (('0' as nat) + d) as char
}

/// The decimal representation of `n`, without leading zeros.
pub open spec fn decimal_text(n: nat) -> Seq<char>
    decreases n,
{
    if n < 10 {
        seq![digit_char(n)]
    } else {
        decimal_text(n / 10).push(digit_char(n % 10))
    }
}

/// Calls `u64::to_string`, which formats with `Display`: the decimal digits of
/// `n`, without sign or leading zeros.
#[verifier::external_body]
pub(crate) fn u64_text(n: u64) -> (r: String)
    ensures
        r@ == decimal_text(n as nat),
{
    n.to_string()
}

/// The decimal representation of a number reads back as that number.
pub proof fn lemma_decimal_text_parses(n: u64)
    ensures
        parse_u64_spec(decimal_text(n as nat)) == Some(n),
{
    lemma_decimal_digits(n as nat);
    let d = decimal_text(n as nat);
    assert('0' <= d[0] <= '9');
}

pub proof fn lemma_decimal_digits(n: nat)
    ensures
        decimal_text(n).len() > 0,
        all_digits(decimal_text(n)),
        digits_value(decimal_text(n)) == n,
    decreases n,
{
    if n >= 10 {
        lemma_decimal_digits(n / 10);
        let d = decimal_text(n);
        assert(d.drop_last() =~= decimal_text(n / 10));
        assert(d.last() == digit_char(n % 10));
        assert((digit_char(n % 10) as nat) == 48 + n % 10);
        assert(n == (n / 10) * 10 + n % 10);
        assert(digits_value(d) == digits_value(d.drop_last()) * 10 + ((d.last() as nat) - 48));
        assert(all_digits(d)) by {
            assert forall|i: int| 0 <= i < d.len() implies '0' <= #[trigger] d[i] <= '9' by {
                if i < d.len() - 1 {
                    assert(d[i] == decimal_text(n / 10)[i]);
                }
            }
        }
    } else {
        assert(seq![digit_char(n)].drop_last() =~= Seq::<char>::empty());
        assert((digit_char(n) as nat) == 48 + n);
        assert(digits_value(Seq::<char>::empty()) == 0);
        let d = decimal_text(n);
        assert(digits_value(d) == digits_value(d.drop_last()) * 10 + ((d.last() as nat) - 48));
    }
}

/// Calls `std::str::from_utf8` and copies the text; the contract claims that it
/// succeeds exactly on valid UTF-8 and then yields the decoded characters.
#[verifier::external_body]
pub(crate) fn decode_bytes(b: &[u8]) -> (r: Option<String>)
    ensures
        r is Some <==> valid_utf8(b@),
        r matches Some(t) ==> t@ == decode_utf8(b@),
{
    match std::str::from_utf8(b) {
        Ok(t) => Some(t.to_string()),
        Err(_) => None,
    }
}

/// What `String::from_utf8_lossy` makes of the bytes `b`: a function of `b`
/// alone.
pub uninterp spec fn lossy_utf8(b: Seq<u8>) -> Seq<char>;

/// Calls `String::from_utf8_lossy`; the contract claims the named result, and
/// that valid UTF-8 is decoded unchanged, as its documentation states.
#[verifier::external_body]
pub(crate) fn decode_bytes_lossy(b: &[u8]) -> (r: String)
    ensures
        r@ == lossy_utf8(b@),
        valid_utf8(b@) ==> r@ == decode_utf8(b@),
{
    String::from_utf8_lossy(b).into_owned()
}

/// The writes that `str`'s `Hash` impl makes into a hasher for the text `s`:
/// a function of `s` alone.
pub uninterp spec fn str_hash_writes(s: Seq<char>) -> Seq<Seq<u8>>;

/// Calls `<str as Hash>::hash` with a `DefaultHasher`; the contract claims
/// that the hasher has then seen the named writes for `input`, after those it
/// had seen before.
#[verifier::external_body]
fn feed_hasher(input: &str, hasher: &mut DefaultHasher)
    ensures
        final(hasher)@ == old(hasher)@ + str_hash_writes(input@),
{
    input.hash(hasher);
}

/// The hash of the text `s` under a fresh `DefaultHasher`.
pub open spec fn string_hash(s: Seq<char>) -> u64 {
    DefaultHasher::spec_finish(str_hash_writes(s))
}

/// Hashes `input` with a fresh `DefaultHasher`.
pub fn hash_string(input: &str) -> (h: u64)
    ensures
        h == string_hash(input@),
{
    let mut hasher = DefaultHasher::new();
    feed_hasher(input, &mut hasher);
    proof {
        assert(hasher@ =~= str_hash_writes(input@));
    }
    hasher.finish()
}

/// The texts `ns` with `sep` between each two.
pub open spec fn join_texts(ns: Seq<Seq<char>>, sep: Seq<char>) -> Seq<char>
    decreases ns.len(),
{
    if ns.len() == 0 {
        Seq::empty()
    } else if ns.len() == 1 {
        ns[0]
    } else {
        join_texts(ns.drop_last(), sep) + sep + ns.last()
    }
}


/// The texts of `ws` with `sep` between each two.
pub fn join_words(ws: &Vec<String>, sep: &str) -> (r: String)
    ensures
        r@ == join_texts(crate::sorting::texts(ws@), sep@),
{
    let ghost ns = crate::sorting::texts(ws@);
    let mut r = String::new();
    let m = ws.len();
    for i in 0..m
        invariant
            m == ws@.len(),
            ns == crate::sorting::texts(ws@),
            r@ == join_texts(ns.take(i as int), sep@),
    {
        proof {
            assert(ns.take(i + 1).drop_last() =~= ns.take(i as int));
            if i == 0 {
                assert(ns.take(0) =~= Seq::<Seq<char>>::empty());
            }
        }
        if i > 0 {
            r.append(sep);
        }
        r.append(ws[i].as_str());
        proof {
            if i == 0 {
                assert(join_texts(ns.take(1), sep@) == ns[0]);
                assert(r@ =~= join_texts(ns.take(1), sep@));
            } else {
                assert(r@ =~= join_texts(ns.take(i + 1), sep@));
            }
        }
    }
    proof {
        assert(ns.take(m as int) =~= ns);
    }
    r
}

/// The text after the prefix `p` of `t`, if `t` starts with `p`.
pub open spec fn after_prefix(t: Seq<char>, p: Seq<char>) -> Option<Seq<char>> {
    if p.len() <= t.len() && t.take(p.len() as int) == p {
        Some(t.skip(p.len() as int))
    } else {
        None
    }
}

/// The text after the prefix `p` of `t`, if `t` starts with `p`.
pub fn strip_prefix_text(t: &str, p: &str) -> (r: Option<String>)
    ensures
        match r {
            None => after_prefix(t@, p@) is None,
            Some(s) => after_prefix(t@, p@) == Some(s@),
        },
{
    let plen = p.unicode_len();
    let tlen = t.unicode_len();
    if plen > tlen {
        return None;
    }
    for i in 0..plen
        invariant
            plen == p@.len(),
            tlen == t@.len(),
            plen <= tlen,
            forall|k: int| 0 <= k < i ==> t@[k] == p@[k],
    {
        if t.get_char(i) != p.get_char(i) {
            proof {
                assert(t@.take(plen as int)[i as int] != p@[i as int]);
            }
            return None;
        }
    }
    proof {
        assert(t@.take(plen as int) =~= p@);
    }
    let rest = t.substring_char(plen, tlen);
    proof {
        assert(rest@ =~= t@.skip(plen as int));
    }
    Some(String::from_str(rest))
}


/// `w` is one word: not empty, and without whitespace.
pub open spec fn single_word(w: Seq<char>) -> bool {
    w.len() > 0 && forall|i: int| 0 <= i < w.len() ==> !unicode_whitespace(#[trigger] w[i])
}

/// Every word of a text is a single word.
pub proof fn lemma_words_are_single(s: Seq<char>)
    ensures
        forall|i: int| 0 <= i < words(s).len() ==> single_word(#[trigger] words(s)[i]),
        s.len() > 0 && !unicode_whitespace(s.last()) ==> words(s).len() > 0,
    decreases s.len(),
{
    if s.len() > 0 {
        lemma_words_are_single(s.drop_last());
        let w0 = words(s.drop_last());
        if !unicode_whitespace(s.last()) {
            if s.len() >= 2 && !unicode_whitespace(s[s.len() - 2]) {
                assert(s.drop_last().last() == s[s.len() - 2]);
                let w = words(s);
                assert forall|i: int| 0 <= i < w.len() implies single_word(#[trigger] w[i]) by {
                    if i == w0.len() - 1 {
                        let x = w0.last().push(s.last());
                        assert(w[i] == x);
                        assert forall|k: int| 0 <= k < x.len() implies !unicode_whitespace(
                            #[trigger] x[k],
                        ) by {
                            if k < x.len() - 1 {
                                assert(x[k] == w0.last()[k]);
                            }
                        }
                    } else {
                        assert(w[i] == w0[i]);
                    }
                }
            } else {
                let w = words(s);
                assert forall|i: int| 0 <= i < w.len() implies single_word(#[trigger] w[i]) by {
                    if i < w0.len() {
                        assert(w[i] == w0[i]);
                    }
                }
            }
        }
    }
}

/// A single word has itself as its only word.
pub proof fn lemma_words_of_single(w: Seq<char>)
    requires
        single_word(w),
    ensures
        words(w) == seq![w],
{
    lemma_words_after(Seq::empty(), w);
    assert(Seq::<char>::empty() + w =~= w);
}

/// Trailing whitespace adds no word.
pub proof fn lemma_words_push_space(s: Seq<char>, c: char)
    requires
        unicode_whitespace(c),
    ensures
        words(s.push(c)) == words(s),
{
    assert(s.push(c).drop_last() =~= s);
}

/// A single word after a text that is empty or ends with whitespace is one
/// more word.
pub proof fn lemma_words_after(s: Seq<char>, w: Seq<char>)
    requires
        s.len() == 0 || unicode_whitespace(s.last()),
        single_word(w),
    ensures
        words(s + w) == words(s).push(w),
    decreases w.len(),
{
    let t = s + w;
    assert(t.last() == w.last());
    if w.len() == 1 {
        assert(t.drop_last() =~= s);
        assert(w =~= seq![w.last()]);
        if s.len() > 0 {
            assert(t[t.len() - 2] == s.last());
        }
    } else {
        let w1 = w.drop_last();
        assert(single_word(w1)) by {
            assert forall|i: int| 0 <= i < w1.len() implies !unicode_whitespace(#[trigger] w1[i]) by {
                assert(w1[i] == w[i]);
            }
        }
        lemma_words_after(s, w1);
        assert(t.drop_last() =~= s + w1);
        assert(t[t.len() - 2] == w[w.len() - 2]);
        assert(w1.push(w.last()) =~= w);
        assert(words(t) =~= words(s).push(w));
    }
}

/// The words of `p`, then a space, then the words `ws` joined by spaces are
/// the words of `p` followed by `ws`.
pub proof fn lemma_words_join(p: Seq<char>, ws: Seq<Seq<char>>)
    requires
        ws.len() > 0,
        forall|i: int| 0 <= i < ws.len() ==> single_word(#[trigger] ws[i]),
    ensures
        words(p + " "@ + join_texts(ws, " "@)) == words(p) + ws,
    decreases ws.len(),
{
    reveal_strlit(" ");
    assert(unicode_whitespace(' '));
    let sp = " "@;
    assert(sp =~= seq![' ']);
    if ws.len() == 1 {
        assert(join_texts(ws, sp) == ws[0]);
        lemma_words_push_space(p, ' ');
        assert(p + sp =~= p.push(' '));
        assert(single_word(ws[0]));
        lemma_words_after(p + sp, ws[0]);
        assert(words(p) + ws =~= words(p).push(ws[0]));
    } else {
        let w0 = ws.drop_last();
        assert forall|i: int| 0 <= i < w0.len() implies single_word(#[trigger] w0[i]) by {
            assert(w0[i] == ws[i]);
        }
        lemma_words_join(p, w0);
        let a = p + sp + join_texts(w0, sp);
        assert(join_texts(ws, sp) == join_texts(w0, sp) + sp + ws.last());
        assert(p + sp + join_texts(ws, sp) =~= a.push(' ') + ws.last());
        lemma_words_push_space(a, ' ');
        assert(single_word(ws[ws.len() - 1]));
        lemma_words_after(a.push(' '), ws.last());
        assert(words(p) + ws =~= (words(p) + w0).push(ws.last()));
    }
}

/// Whether `w` is the text `lit`.
pub(crate) fn text_is(w: &String, lit: &str) -> (b: bool)
    ensures
        b == (w@ == lit@),
{
    let l = String::from_str(lit);
    *w == l
}

/// `a` followed by `b`.
pub(crate) fn concat_text(a: &str, b: &str) -> (r: String)
    ensures
        r@ == a@ + b@,
{
    let mut r = String::from_str(a);
    r.append(b);
    r
}

/// The UTF-8 encoding of two texts one after the other is their encodings one
/// after the other.
pub proof fn lemma_encode_concat(a: Seq<char>, b: Seq<char>)
    ensures
        encode_utf8(a + b) == encode_utf8(a) + encode_utf8(b),
    decreases a.len(),
{
    if a.len() == 0 {
        assert(a + b =~= b);
        assert(encode_utf8(a) + encode_utf8(b) =~= encode_utf8(b));
    } else {
        lemma_encode_concat(a.drop_first(), b);
        assert((a + b).drop_first() =~= a.drop_first() + b);
        assert((a + b)[0] == a[0]);
        assert(encode_utf8(a + b) =~= encode_scalar(a[0] as u32) + encode_utf8(a.drop_first())
            + encode_utf8(b));
    }
}

/// In the encoding of two texts one after the other, the end of the first is a
/// character boundary.
pub proof fn lemma_boundary_between(a: Seq<char>, b: Seq<char>)
    ensures
        is_char_boundary(encode_utf8(a) + encode_utf8(b), encode_utf8(a).len() as int),
    decreases a.len(),
{
    let bytes = encode_utf8(a) + encode_utf8(b);
    lemma_encode_concat(a, b);
    vstd::utf8::encode_utf8_valid_utf8(a + b);
    if a.len() == 0 {
        assert(encode_utf8(a).len() == 0);
    } else {
        let c = a[0];
        assert((a + b)[0] == c);
        vstd::utf8::encode_utf8_first_scalar(a + b);
        let l = length_of_first_scalar(bytes);
        assert(l == encode_scalar(c as u32).len());
        assert(encode_utf8(a) == encode_scalar(c as u32) + encode_utf8(a.drop_first()));
        assert(encode_scalar(c as u32).len() >= 1);
        assert(pop_first_scalar(bytes) =~= encode_utf8(a.drop_first()) + encode_utf8(b));
        lemma_boundary_between(a.drop_first(), b);
    }
}

} // verus!
