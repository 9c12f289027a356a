//! The query translator: turns a raw HTTP query string into a structured
//! search request.
//!
//! The grammar is the form-urlencoded one: the string is split on `&`, empty
//! segments are skipped, each remaining segment is split at its first `=`
//! into a key and a value (a segment without `=` is a key with an empty
//! value), and key and value are URL-decoded. Decoding turns `+` into a
//! space and `%` followed by two hex digits into that byte; an incomplete or
//! invalid escape passes through unchanged. Translation succeeds exactly
//! when one pair carries the key `q`, and yields that pair's decoded value
//! verbatim.

use vstd::prelude::*;
use crate::model::{ClientInputError, SearchRequest};

verus! {

/// An ASCII hexadecimal digit, either case.
pub open spec fn is_hex_digit(b: u8) -> bool {
    (48 <= b <= 57) || (65 <= b <= 70) || (97 <= b <= 102)
}

/// The numeric value of an ASCII hexadecimal digit.
pub open spec fn hex_value(b: u8) -> u8
    recommends
        is_hex_digit(b),
{
    if 48 <= b <= 57 {
        (b - 48) as u8
    } else if 65 <= b <= 70 {
        (b - 55) as u8
    } else {
        (b - 87) as u8
    }
}

/// URL-decoding of one component: `+` becomes a space, `%` followed by two
/// hex digits becomes that byte, and any other byte (including a `%` that
/// does not start a valid escape) passes through unchanged.
pub open spec fn url_decode(s: Seq<u8>) -> Seq<u8>
    decreases s.len(),
{
    if s.len() == 0 {
        Seq::empty()
    } else if s[0] == 37 && s.len() >= 3 && is_hex_digit(s[1]) && is_hex_digit(s[2]) {
        seq![(16 * hex_value(s[1]) + hex_value(s[2])) as u8] + url_decode(s.skip(3))
    } else if s[0] == 43 {
        seq![32u8] + url_decode(s.skip(1))
    } else {
        seq![s[0]] + url_decode(s.skip(1))
    }
}

/// The key of a segment: everything before its first `=`, URL-decoded only
/// by `segment_pair`.
pub open spec fn key_part(seg: Seq<u8>) -> Seq<u8>
    decreases seg.len(),
{
    if seg.len() == 0 {
        Seq::empty()
    } else if seg[0] == 61 {
        Seq::empty()
    } else {
        seq![seg[0]] + key_part(seg.skip(1))
    }
}

/// The value of a segment: everything after its first `=`, or empty if the
/// segment has no `=`.
pub open spec fn value_part(seg: Seq<u8>) -> Seq<u8>
    decreases seg.len(),
{
    if seg.len() == 0 {
        Seq::empty()
    } else if seg[0] == 61 {
        seg.skip(1)
    } else {
        value_part(seg.skip(1))
    }
}

/// The decoded key/value pair of one nonempty segment.
pub open spec fn segment_pair(seg: Seq<u8>) -> (Seq<u8>, Seq<u8>) {
    (url_decode(key_part(seg)), url_decode(value_part(seg)))
}

/// The pairs contributed by one segment: none if it is empty, else its
/// decoded key/value pair.
pub open spec fn emit_segment(seg: Seq<u8>) -> Seq<(Seq<u8>, Seq<u8>)> {
    if seg.len() == 0 {
        Seq::empty()
    } else {
        seq![segment_pair(seg)]
    }
}

/// Scans a query string byte by byte, `cur` being the segment read so far,
/// and collects the decoded pairs of every nonempty segment.
pub open spec fn scan_pairs(s: Seq<u8>, cur: Seq<u8>) -> Seq<(Seq<u8>, Seq<u8>)>
    decreases s.len(),
{
    if s.len() == 0 {
        emit_segment(cur)
    } else if s[0] == 38 {
        emit_segment(cur) + scan_pairs(s.skip(1), Seq::empty())
    } else {
        scan_pairs(s.skip(1), cur.push(s[0]))
    }
}

/// The decoded key/value pairs of a query string, in order.
pub open spec fn query_pairs(s: Seq<u8>) -> Seq<(Seq<u8>, Seq<u8>)> {
    scan_pairs(s, Seq::empty())
}

/// The key that the translator looks for.
pub open spec fn q_key() -> Seq<u8> {
    seq![113u8]
}

/// Scans the pairs for the key `q`, `found` holding a value already seen:
/// exactly one occurrence yields its value, none is a missing parameter, a
/// second one is a duplicate.
pub open spec fn lookup_q(pairs: Seq<(Seq<u8>, Seq<u8>)>, found: Option<Seq<u8>>) -> Result<
    Seq<u8>,
    ClientInputError,
>
    decreases pairs.len(),
{
    if pairs.len() == 0 {
        match found {
            Option::Some(v) => Result::Ok(v),
            Option::None => Result::Err(ClientInputError::MissingQuery),
        }
    } else if pairs[0].0 == q_key() {
        if found is Some {
            Result::Err(ClientInputError::DuplicateQuery)
        } else {
            lookup_q(pairs.skip(1), Option::Some(pairs[0].1))
        }
    } else {
        lookup_q(pairs.skip(1), found)
    }
}

/// What translation returns on a given query string: the decoded value of
/// the unique `q` pair, or the client error that says why there is none.
pub open spec fn translate_spec(s: Seq<u8>) -> Result<Seq<u8>, ClientInputError> {
    lookup_q(query_pairs(s), Option::None)
}

spec fn found_view(f: Option<Vec<u8>>) -> Option<Seq<u8>> {
    match f {
        Option::Some(v) => Option::Some(v@),
        Option::None => Option::None,
    }
}

fn is_hex_digit_exec(b: u8) -> (r: bool)
    ensures
        r == is_hex_digit(b),
{
    (48 <= b && b <= 57) || (65 <= b && b <= 70) || (97 <= b && b <= 102)
}

fn hex_value_exec(b: u8) -> (r: u8)
    requires
        is_hex_digit(b),
    ensures
        r == hex_value(b),
        r <= 15,
{
    if b <= 57 {
        b - 48
    } else if b <= 70 {
        b - 55
    } else {
        b - 87
    }
}

/// URL-decodes the bytes of `s` between `from` and `to`.
fn url_decode_range(s: &[u8], from: usize, to: usize) -> (r: Vec<u8>)
    requires
        from <= to <= s@.len(),
    ensures
        r@ == url_decode(s@.subrange(from as int, to as int)),
{
    let mut out: Vec<u8> = Vec::new();
    let mut i = from;
    proof {
        assert(s@.subrange(from as int, to as int) =~= s@.subrange(from as int, to as int));
    }
    while i < to
        invariant
            from <= i <= to <= s@.len(),
            url_decode(s@.subrange(from as int, to as int)) == out@ + url_decode(
                s@.subrange(i as int, to as int),
            ),
        decreases to - i,
    {
        let ghost rem = s@.subrange(i as int, to as int);
        let b = s[i];
        if b == 37 && to - i >= 3 && is_hex_digit_exec(s[i + 1]) && is_hex_digit_exec(s[i + 2]) {
            let v = 16 * hex_value_exec(s[i + 1]) + hex_value_exec(s[i + 2]);
            out.push(v);
            proof {
                assert(rem.skip(3) =~= s@.subrange(i + 3, to as int));
                assert(url_decode(rem) == seq![v] + url_decode(s@.subrange(i + 3, to as int)));
                assert(out@ + url_decode(s@.subrange(i + 3, to as int)) =~= (out@.drop_last())
                    + (seq![v] + url_decode(s@.subrange(i + 3, to as int))));
            }
            i = i + 3;
        } else if b == 43 {
            out.push(32);
            proof {
                assert(rem.skip(1) =~= s@.subrange(i + 1, to as int));
                assert(url_decode(rem) == seq![32u8] + url_decode(s@.subrange(i + 1, to as int)));
                assert(out@ + url_decode(s@.subrange(i + 1, to as int)) =~= (out@.drop_last())
                    + (seq![32u8] + url_decode(s@.subrange(i + 1, to as int))));
            }
            i = i + 1;
        } else {
            out.push(b);
            proof {
                assert(rem.skip(1) =~= s@.subrange(i + 1, to as int));
                assert(url_decode(rem) == seq![b] + url_decode(s@.subrange(i + 1, to as int)));
                assert(out@ + url_decode(s@.subrange(i + 1, to as int)) =~= (out@.drop_last())
                    + (seq![b] + url_decode(s@.subrange(i + 1, to as int))));
            }
            i = i + 1;
        }
    }
    proof {
        assert(s@.subrange(to as int, to as int) =~= Seq::<u8>::empty());
        assert(out@ + url_decode(Seq::<u8>::empty()) =~= out@);
    }
    out
}

/// The tail of `s` after the separator at `k`, or empty if `k` is past the
/// last byte.
spec fn seq_after(s: Seq<u8>, k: int) -> Seq<u8> {
    if k < s.len() {
        s.skip(k + 1)
    } else {
        Seq::empty()
    }
}

/// Splitting the scan at the first separator: the pairs of `s` scanned with
/// a partial segment `cur` are the pair of `cur` extended to the separator,
/// followed by the pairs of what comes after it.
proof fn lemma_scan_pairs_split(s: Seq<u8>, cur: Seq<u8>, k: int)
    requires
        0 <= k <= s.len(),
        forall|j: int| 0 <= j < k ==> s[j] != 38u8,
        k < s.len() ==> s[k] == 38u8,
    ensures
        scan_pairs(s, cur) == emit_segment(cur + s.take(k)) + scan_pairs(
            seq_after(s, k),
            Seq::empty(),
        ),
    decreases k, s.len(),
{
    if k == 0 {
        assert(cur + s.take(0) =~= cur);
        if s.len() == 0 {
            assert(seq_after(s, 0) =~= Seq::<u8>::empty());
            assert(scan_pairs(Seq::<u8>::empty(), Seq::<u8>::empty()) =~= Seq::<(
                Seq<u8>,
                Seq<u8>,
            )>::empty());
            assert(emit_segment(cur) + Seq::<(Seq<u8>, Seq<u8>)>::empty() =~= emit_segment(cur));
        } else {
            assert(s[0] == 38u8);
            assert(seq_after(s, 0) =~= s.skip(1));
        }
    } else {
        assert(s[0] != 38u8);
        lemma_scan_pairs_split(s.skip(1), cur.push(s[0]), k - 1);
        assert(forall|j: int| 0 <= j < k - 1 ==> s.skip(1)[j] == s[j + 1]);
        assert(cur.push(s[0]) + s.skip(1).take(k - 1) =~= cur + s.take(k));
        if k < s.len() {
            assert(s.skip(1)[k - 1] == s[k]);
            assert(s.skip(1).skip(k) =~= s.skip(k + 1));
            assert(seq_after(s.skip(1), k - 1) == seq_after(s, k));
        } else {
            assert(seq_after(s.skip(1), k - 1) == seq_after(s, k));
        }
    }
}

/// Splitting a segment at its first `=`: the key is what comes before it,
/// the value what comes after (empty if there is none).
proof fn lemma_segment_parts(seg: Seq<u8>, m: int)
    requires
        0 <= m <= seg.len(),
        forall|j: int| 0 <= j < m ==> seg[j] != 61u8,
        m < seg.len() ==> seg[m] == 61u8,
    ensures
        key_part(seg) == seg.take(m),
        value_part(seg) == if m < seg.len() {
            seg.skip(m + 1)
        } else {
            Seq::<u8>::empty()
        },
    decreases m, seg.len(),
{
    if m == 0 {
        if seg.len() == 0 {
            assert(key_part(seg) =~= seg.take(0));
        } else {
            assert(seg[0] == 61u8);
            assert(key_part(seg) =~= seg.take(0));
        }
    } else {
        assert(seg[0] != 61u8);
        lemma_segment_parts(seg.skip(1), m - 1);
        assert(forall|j: int| 0 <= j < m - 1 ==> seg.skip(1)[j] == seg[j + 1]);
        assert(seq![seg[0]] + seg.skip(1).take(m - 1) =~= seg.take(m));
        if m < seg.len() {
            assert(seg.skip(1)[m - 1] == seg[m]);
            assert(seg.skip(1).skip(m) =~= seg.skip(m + 1));
        }
    }
}

/// Translates a raw query string into a search request: returns the decoded
/// value of its unique `q` parameter verbatim, the missing-parameter error
/// when no pair has key `q`, and the duplicate error when more than one has.
pub fn translate(query_string: &[u8]) -> (r: Result<SearchRequest, ClientInputError>)
    ensures
        translate_spec(query_string@) matches Ok(v) ==> (r matches Ok(req) && req.query_text@
            == v),
        translate_spec(query_string@) matches Err(e) ==> (r matches Err(err) && err == e),
{
    let ghost s = query_string@;
    let n = query_string.len();
    let mut pos: usize = 0;
    let mut found: Option<Vec<u8>> = None;
    proof {
        assert(s.skip(0) =~= s);
    }
    loop
        invariant_except_break
            n == s.len(),
            query_string@ == s,
            pos <= n,
            translate_spec(s) == lookup_q(scan_pairs(s.skip(pos as int), Seq::empty()), found_view(found)),
        ensures
            query_string@ == s,
            translate_spec(s) == lookup_q(Seq::<(Seq<u8>, Seq<u8>)>::empty(), found_view(found)),
        decreases n - pos,
    {
        // Find the end of the current segment.
        let mut e = pos;
        while e < n && query_string[e] != 38u8
            invariant
                n == s.len(),
                query_string@ == s,
                pos <= e <= n,
                forall|j: int| pos <= j < e ==> s[j] != 38u8,
            decreases n - e,
        {
            e = e + 1;
        }
        let ghost seg = s.subrange(pos as int, e as int);
        let ghost rest = seq_after(s.skip(pos as int), e - pos);
        proof {
            assert(forall|j: int| 0 <= j < e - pos ==> s.skip(pos as int)[j] == s[pos + j]);
            if e < n {
                assert(s.skip(pos as int)[e - pos] == s[e as int]);
            }
            lemma_scan_pairs_split(s.skip(pos as int), Seq::empty(), e - pos);
            assert(Seq::<u8>::empty() + s.skip(pos as int).take(e - pos) =~= seg);
            if e < n {
                assert(s.skip(pos as int).skip(e - pos + 1) =~= s.skip(e + 1));
                assert(rest =~= s.skip(e + 1));
            }
        }
        if e > pos {
            // Find the first `=` of the segment.
            let mut m = pos;
            while m < e && query_string[m] != 61u8
                invariant
                    n == s.len(),
                    query_string@ == s,
                    pos <= m <= e <= n,
                    forall|j: int| pos <= j < m ==> s[j] != 61u8,
                decreases e - m,
            {
                m = m + 1;
            }
            proof {
                assert(forall|j: int| 0 <= j < m - pos ==> seg[j] == s[pos + j]);
                if m < e {
                    assert(seg[m - pos] == s[m as int]);
                }
                lemma_segment_parts(seg, m - pos);
                assert(seg.take(m - pos) =~= s.subrange(pos as int, m as int));
            }
            let key = url_decode_range(query_string, pos, m);
            let is_q = key.len() == 1 && key[0] == 113u8;
            proof {
                if is_q {
                    assert(key@ =~= q_key());
                } else {
                    assert(key@ != q_key());
                }
                let p = segment_pair(seg);
                let tailp = scan_pairs(rest, Seq::empty());
                assert((seq![p] + tailp)[0] == p);
                assert((seq![p] + tailp).skip(1) =~= tailp);
                assert(p.0 == key@);
            }
            if is_q {
                match found {
                    Some(_) => {
                        return Err(ClientInputError::DuplicateQuery);
                    },
                    None => {
                        let value: Vec<u8> = if m < e {
                            let v = url_decode_range(query_string, m + 1, e);
                            proof {
                                assert(seg.skip(m - pos + 1) =~= s.subrange(m + 1, e as int));
                            }
                            v
                        } else {
                            proof {
                                assert(url_decode(Seq::<u8>::empty()) =~= Seq::<u8>::empty());
                            }
                            Vec::new()
                        };
                        proof {
                            assert(value@ == segment_pair(seg).1);
                        }
                        found = Some(value);
                    },
                }
            }
        } else {
            proof {
                assert(emit_segment(seg) + scan_pairs(rest, Seq::empty()) =~= scan_pairs(
                    rest,
                    Seq::empty(),
                ));
            }
        }
        if e == n {
            proof {
                assert(rest =~= Seq::<u8>::empty());
                assert(scan_pairs(Seq::<u8>::empty(), Seq::<u8>::empty()) =~= Seq::<(
                    Seq<u8>,
                    Seq<u8>,
                )>::empty());
            }
            break;
        } else {
            pos = e + 1;
        }
    }
    match found {
        Some(v) => Ok(SearchRequest { query_text: v }),
        None => Err(ClientInputError::MissingQuery),
    }
}

/// An ASCII hexadecimal digit for a value below sixteen, upper case.
pub open spec fn hex_digit(v: u8) -> u8
    recommends
        v < 16,
{
    if v < 10 {
        (48 + v) as u8
    } else {
        (55 + v) as u8
    }
}

/// Percent-encodes every byte of a text as `%` followed by two hex digits:
/// one valid URL-encoding of that text.
pub open spec fn percent_encode_all(t: Seq<u8>) -> Seq<u8>
    decreases t.len(),
{
    if t.len() == 0 {
        Seq::empty()
    } else {
        seq![37u8, hex_digit((t[0] / 16) as u8), hex_digit((t[0] % 16) as u8)]
            + percent_encode_all(t.skip(1))
    }
}

proof fn lemma_hex_digit_roundtrip(v: u8)
    requires
        v < 16,
    ensures
        is_hex_digit(hex_digit(v)),
        hex_value(hex_digit(v)) == v,
{
}

/// Every byte of a percent-encoded text is a `%` or a hex digit; in
/// particular none is a pair or key/value separator.
proof fn lemma_encode_bytes(t: Seq<u8>)
    ensures
        forall|j: int|
            0 <= j < percent_encode_all(t).len() ==> (percent_encode_all(t)[j] == 37u8
                || is_hex_digit(#[trigger] percent_encode_all(t)[j])),
    decreases t.len(),
{
    if t.len() > 0 {
        lemma_encode_bytes(t.skip(1));
        lemma_hex_digit_roundtrip((t[0] / 16) as u8);
        lemma_hex_digit_roundtrip((t[0] % 16) as u8);
        assert(forall|j: int|
            3 <= j < percent_encode_all(t).len() ==> #[trigger] percent_encode_all(t)[j]
                == percent_encode_all(t.skip(1))[j - 3]);
    }
}

/// URL-decoding undoes percent-encoding: decoding the encoding of any text,
/// printable or not, yields that text verbatim.
pub proof fn lemma_url_decode_encode_roundtrip(t: Seq<u8>)
    ensures
        url_decode(percent_encode_all(t)) == t,
    decreases t.len(),
{
    if t.len() == 0 {
    } else {
        let b = t[0];
        let hi = hex_digit((b / 16) as u8);
        let lo = hex_digit((b % 16) as u8);
        lemma_hex_digit_roundtrip((b / 16) as u8);
        lemma_hex_digit_roundtrip((b % 16) as u8);
        let enc = percent_encode_all(t);
        assert(enc[0] == 37u8 && enc[1] == hi && enc[2] == lo);
        assert(enc.skip(3) =~= percent_encode_all(t.skip(1)));
        lemma_url_decode_encode_roundtrip(t.skip(1));
        assert(16 * hex_value(hi) + hex_value(lo) == b);
        assert(url_decode(enc) == seq![b] + url_decode(enc.skip(3)));
        assert(seq![b] + t.skip(1) =~= t);
    }
}

/// A text free of `%` and `+` decodes to itself.
pub proof fn lemma_url_decode_plain(t: Seq<u8>)
    requires
        forall|j: int| 0 <= j < t.len() ==> t[j] != 37u8 && t[j] != 43u8,
    ensures
        url_decode(t) == t,
    decreases t.len(),
{
    if t.len() > 0 {
        assert(forall|j: int| 0 <= j < t.skip(1).len() ==> t.skip(1)[j] == t[j + 1]);
        lemma_url_decode_plain(t.skip(1));
        assert(seq![t[0]] + t.skip(1) =~= t);
    }
}

/// A segment `q=` followed by an encoding of `t` decodes to the pair of the
/// key `q` and the text `t`.
proof fn lemma_q_segment_pair(qs: Seq<u8>, t: Seq<u8>)
    requires
        qs.len() >= 2,
        qs[0] == 113u8,
        qs[1] == 61u8,
        url_decode(qs.skip(2)) == t,
    ensures
        segment_pair(qs) == (q_key(), t),
{
    lemma_segment_parts(qs, 1);
    assert(qs.take(1) =~= seq![113u8]);
    let k = seq![113u8];
    assert(k.len() == 1 && k[0] == 113u8);
    assert(k.skip(1) =~= Seq::<u8>::empty());
    assert(url_decode(Seq::<u8>::empty()) == Seq::<u8>::empty());
    assert(url_decode(k) == seq![k[0]] + url_decode(k.skip(1)));
    assert(url_decode(k) =~= seq![113u8]);
    assert(segment_pair(qs).0 == q_key());
    assert(segment_pair(qs).1 == t);
}

proof fn lemma_single_q_pair(qs: Seq<u8>, t: Seq<u8>)
    requires
        qs.len() >= 2,
        qs[0] == 113u8,
        qs[1] == 61u8,
        forall|j: int| 0 <= j < qs.len() ==> qs[j] != 38u8,
        url_decode(qs.skip(2)) == t,
    ensures
        translate_spec(qs) == Result::<Seq<u8>, ClientInputError>::Ok(t),
{
    lemma_scan_pairs_split(qs, Seq::empty(), qs.len() as int);
    assert(Seq::<u8>::empty() + qs.take(qs.len() as int) =~= qs);
    assert(scan_pairs(Seq::<u8>::empty(), Seq::<u8>::empty()) =~= Seq::<(Seq<u8>, Seq<u8>)>::empty());
    assert(query_pairs(qs) =~= seq![segment_pair(qs)]);
    lemma_q_segment_pair(qs, t);
    let pairs = query_pairs(qs);
    assert(pairs[0] == segment_pair(qs));
    assert(pairs.skip(1) =~= Seq::<(Seq<u8>, Seq<u8>)>::empty());
    assert(lookup_q(pairs, Option::None) == lookup_q(pairs.skip(1), Option::Some(t)));
}

/// The translator extracts query text verbatim: a query string that carries
/// under the key `q` the percent-encoding of an arbitrary text translates to
/// exactly that text, the round trip through URL-decoding losing nothing.
pub proof fn lemma_translate_extracts_encoded(t: Seq<u8>)
    ensures
        translate_spec(seq![113u8, 61u8] + percent_encode_all(t)) == Result::<
            Seq<u8>,
            ClientInputError,
        >::Ok(t),
{
    let enc = percent_encode_all(t);
    let qs = seq![113u8, 61u8] + enc;
    lemma_encode_bytes(t);
    assert forall|j: int| 0 <= j < qs.len() implies qs[j] != 38u8 by {
        if j >= 2 {
            assert(qs[j] == enc[j - 2]);
        }
    }
    assert(qs.skip(2) =~= enc);
    lemma_url_decode_encode_roundtrip(t);
    lemma_single_q_pair(qs, t);
}

/// The translator extracts plain query text verbatim: a query string `q=`
/// followed by a text free of the reserved bytes `&`, `%` and `+` translates
/// to exactly that text.
pub proof fn lemma_translate_extracts_plain(t: Seq<u8>)
    requires
        forall|j: int| 0 <= j < t.len() ==> t[j] != 38u8 && t[j] != 37u8 && t[j] != 43u8,
    ensures
        translate_spec(seq![113u8, 61u8] + t) == Result::<Seq<u8>, ClientInputError>::Ok(t),
{
    let qs = seq![113u8, 61u8] + t;
    assert forall|j: int| 0 <= j < qs.len() implies qs[j] != 38u8 by {
        if j >= 2 {
            assert(qs[j] == t[j - 2]);
        }
    }
    assert(qs.skip(2) =~= t);
    lemma_url_decode_plain(t);
    lemma_single_q_pair(qs, t);
}

/// Scanning past a chunk that ends at a separator: the pairs of `a + b` are
/// the pairs of `a` followed by the pairs of `b`.
proof fn lemma_scan_append(a: Seq<u8>, b: Seq<u8>, cur: Seq<u8>)
    requires
        a.len() > 0,
        a.last() == 38u8,
    ensures
        scan_pairs(a + b, cur) == scan_pairs(a, cur) + scan_pairs(b, Seq::empty()),
    decreases a.len(),
{
    assert((a + b)[0] == a[0]);
    if a.len() == 1 {
        assert(a[0] == 38u8);
        assert((a + b).skip(1) =~= b);
        assert(a.skip(1) =~= Seq::<u8>::empty());
        assert(scan_pairs(Seq::<u8>::empty(), Seq::<u8>::empty()) =~= Seq::<(Seq<u8>, Seq<u8>)>::empty());
        assert(scan_pairs(a, cur) =~= emit_segment(cur));
        assert(emit_segment(cur) + scan_pairs(b, Seq::empty()) =~= scan_pairs(a + b, cur));
    } else {
        assert(a.skip(1).last() == a.last());
        assert((a + b).skip(1) =~= a.skip(1) + b);
        if a[0] == 38u8 {
            lemma_scan_append(a.skip(1), b, Seq::empty());
            assert(emit_segment(cur) + (scan_pairs(a.skip(1), Seq::empty()) + scan_pairs(
                b,
                Seq::empty(),
            )) =~= (emit_segment(cur) + scan_pairs(a.skip(1), Seq::empty())) + scan_pairs(
                b,
                Seq::empty(),
            ));
        } else {
            lemma_scan_append(a.skip(1), b, cur.push(a[0]));
        }
    }
}

/// Pairs without the key `q` at the front do not change the lookup.
proof fn lemma_lookup_prefix_no_q(p1: Seq<(Seq<u8>, Seq<u8>)>, p2: Seq<(Seq<u8>, Seq<u8>)>)
    requires
        forall|i: int| 0 <= i < p1.len() ==> (#[trigger] p1[i]).0 != q_key(),
    ensures
        lookup_q(p1 + p2, Option::None) == lookup_q(p2, Option::None),
    decreases p1.len(),
{
    if p1.len() == 0 {
        assert(p1 + p2 =~= p2);
    } else {
        assert((p1 + p2)[0] == p1[0]);
        assert((p1 + p2).skip(1) =~= p1.skip(1) + p2);
        assert(forall|i: int| 0 <= i < p1.skip(1).len() ==> p1.skip(1)[i] == p1[i + 1]);
        lemma_lookup_prefix_no_q(p1.skip(1), p2);
    }
}

/// Once the value of `q` is found, pairs without the key `q` cannot change
/// or duplicate it.
proof fn lemma_lookup_found_no_q(p: Seq<(Seq<u8>, Seq<u8>)>, v: Seq<u8>)
    requires
        forall|i: int| 0 <= i < p.len() ==> (#[trigger] p[i]).0 != q_key(),
    ensures
        lookup_q(p, Option::Some(v)) == Result::<Seq<u8>, ClientInputError>::Ok(v),
    decreases p.len(),
{
    if p.len() > 0 {
        assert(forall|i: int| 0 <= i < p.skip(1).len() ==> p.skip(1)[i] == p[i + 1]);
        lemma_lookup_found_no_q(p.skip(1), v);
    }
}

/// The translator extracts query text verbatim wherever the pair stands: a
/// query string made of pairs without the key `q`, then `q=` with the
/// percent-encoding of an arbitrary text, then more pairs without the key
/// `q`, translates to exactly that text.
pub proof fn lemma_translate_extracts_q_in_context(prefix: Seq<u8>, t: Seq<u8>, suffix: Seq<u8>)
    requires
        prefix.len() == 0 || prefix.last() == 38u8,
        suffix.len() == 0 || suffix[0] == 38u8,
        forall|i: int| 0 <= i < query_pairs(prefix).len() ==> (#[trigger] query_pairs(prefix)[i]).0
            != q_key(),
        forall|i: int| 0 <= i < query_pairs(suffix).len() ==> (#[trigger] query_pairs(suffix)[i]).0
            != q_key(),
    ensures
        translate_spec(prefix + (seq![113u8, 61u8] + percent_encode_all(t)) + suffix) == Result::<
            Seq<u8>,
            ClientInputError,
        >::Ok(t),
{
    let enc = percent_encode_all(t);
    let qseg = seq![113u8, 61u8] + enc;
    let tail = qseg + suffix;
    let total = prefix + qseg + suffix;
    lemma_encode_bytes(t);
    assert forall|j: int| 0 <= j < qseg.len() implies qseg[j] != 38u8 by {
        if j >= 2 {
            assert(qseg[j] == enc[j - 2]);
        }
    }
    // The pairs of `qseg + suffix`: the q pair, then the pairs of `suffix`.
    assert(forall|j: int| 0 <= j < qseg.len() ==> tail[j] == qseg[j]);
    if suffix.len() > 0 {
        assert(tail[qseg.len() as int] == suffix[0]);
    }
    lemma_scan_pairs_split(tail, Seq::empty(), qseg.len() as int);
    assert(Seq::<u8>::empty() + tail.take(qseg.len() as int) =~= qseg);
    assert(qseg.skip(2) =~= enc);
    lemma_url_decode_encode_roundtrip(t);
    lemma_q_segment_pair(qseg, t);
    let sp = query_pairs(suffix);
    if suffix.len() > 0 {
        assert(seq_after(tail, qseg.len() as int) =~= suffix.skip(1));
        assert(emit_segment(Seq::<u8>::empty()) + scan_pairs(suffix.skip(1), Seq::empty())
            =~= scan_pairs(suffix.skip(1), Seq::empty()));
        assert(sp == scan_pairs(suffix.skip(1), Seq::empty()));
    } else {
        assert(seq_after(tail, qseg.len() as int) =~= Seq::<u8>::empty());
        assert(scan_pairs(Seq::<u8>::empty(), Seq::<u8>::empty()) =~= Seq::<(Seq<u8>, Seq<u8>)>::empty());
        assert(sp =~= Seq::<(Seq<u8>, Seq<u8>)>::empty());
    }
    assert(scan_pairs(tail, Seq::empty()) == seq![(q_key(), t)] + sp);
    // The pairs of the whole string: the pairs of `prefix`, then the rest.
    let pp = query_pairs(prefix);
    if prefix.len() > 0 {
        lemma_scan_append(prefix, tail, Seq::empty());
        assert(total =~= prefix + tail);
        assert(query_pairs(total) == pp + (seq![(q_key(), t)] + sp));
    } else {
        assert(total =~= tail);
        assert(pp + (seq![(q_key(), t)] + sp) =~= seq![(q_key(), t)] + sp);
        assert(query_pairs(total) == pp + (seq![(q_key(), t)] + sp));
    }
    // Look the key up across the three parts.
    lemma_lookup_prefix_no_q(pp, seq![(q_key(), t)] + sp);
    assert((seq![(q_key(), t)] + sp)[0] == (q_key(), t));
    assert((seq![(q_key(), t)] + sp).skip(1) =~= sp);
    lemma_lookup_found_no_q(sp, t);
}

proof fn lemma_lookup_missing(pairs: Seq<(Seq<u8>, Seq<u8>)>)
    requires
        forall|i: int| 0 <= i < pairs.len() ==> pairs[i].0 != q_key(),
    ensures
        lookup_q(pairs, Option::None) == Result::<Seq<u8>, ClientInputError>::Err(
            ClientInputError::MissingQuery,
        ),
    decreases pairs.len(),
{
    if pairs.len() > 0 {
        assert(forall|i: int| 0 <= i < pairs.skip(1).len() ==> pairs.skip(1)[i] == pairs[i + 1]);
        lemma_lookup_missing(pairs.skip(1));
    }
}

/// A query string lacking `q` is rejected: when no pair of the query string
/// has the key `q`, translation fails with the missing-parameter client
/// error.
pub proof fn lemma_missing_query_rejected(s: Seq<u8>)
    requires
        forall|i: int| 0 <= i < query_pairs(s).len() ==> (#[trigger] query_pairs(s)[i]).0
            != q_key(),
    ensures
        translate_spec(s) == Result::<Seq<u8>, ClientInputError>::Err(
            ClientInputError::MissingQuery,
        ),
{
    lemma_lookup_missing(query_pairs(s));
}

} // verus!
