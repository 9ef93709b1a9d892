//! Byte-sequence text utilities: substring search, splitting on a separator,
//! joining, ASCII case folding, and decimal number tokens. These are the
//! primitives the HTTP codec is built from and proved against.
use vstd::prelude::*;

verus! {

use vstd::utf8::{valid_utf8, decode_utf8, encode_utf8, is_ascii_chars};
use vstd::utf8::{encode_utf8_valid_utf8, encode_utf8_decode_utf8, decode_utf8_encode_utf8,
    is_ascii_chars_encode_utf8};

/// The pattern `pat` occurs in `s` starting at index `i`.
pub open spec fn occurs_at(s: Seq<u8>, pat: Seq<u8>, i: int) -> bool {
    0 <= i && i + pat.len() <= s.len() && s.subrange(i, i + pat.len() as int) == pat
}

/// Index of the leftmost occurrence of `pat` in `s`, or -1 when there is none.
pub open spec fn find_sub(s: Seq<u8>, pat: Seq<u8>) -> int
    decreases s.len(),
{
    if pat.len() == 0 {
        0
    } else if s.len() < pat.len() {
        -1
    } else if s.subrange(0, pat.len() as int) == pat {
        0
    } else {
        let r = find_sub(s.drop_first(), pat);
        if r < 0 {
            -1
        } else {
            r + 1
        }
    }
}

/// `find_sub` returns exactly the leftmost occurrence, or -1 when none exists.
pub proof fn lemma_find_sub_char(s: Seq<u8>, pat: Seq<u8>)
    requires
        pat.len() > 0,
    ensures
        find_sub(s, pat) >= 0 ==> occurs_at(s, pat, find_sub(s, pat)) && (forall|j: int|
            0 <= j < find_sub(s, pat) ==> !occurs_at(s, pat, j)),
        find_sub(s, pat) < 0 ==> (forall|j: int| !occurs_at(s, pat, j)),
        find_sub(s, pat) < 0 ==> find_sub(s, pat) == -1,
    decreases s.len(),
{
    if s.len() < pat.len() {
        assert forall|j: int| !occurs_at(s, pat, j) by {}
    } else if s.subrange(0, pat.len() as int) == pat {
    } else {
        let t = s.drop_first();
        lemma_find_sub_char(t, pat);
        assert forall|j: int| occurs_at(s, pat, j) implies j >= 1 && occurs_at(t, pat, j - 1) by {
            if j == 0 {
                assert(s.subrange(0, pat.len() as int) == pat);
            } else {
                assert(t.subrange(j - 1, j - 1 + pat.len() as int) =~= s.subrange(
                    j,
                    j + pat.len() as int,
                ));
            }
        }
        assert forall|j: int| occurs_at(t, pat, j) implies occurs_at(s, pat, j + 1) by {
            assert(s.subrange(j + 1, j + 1 + pat.len() as int) =~= t.subrange(
                j,
                j + pat.len() as int,
            ));
        }
        let r = find_sub(t, pat);
        if r >= 0 {
            assert(occurs_at(s, pat, r + 1));
            assert forall|j: int| 0 <= j < r + 1 implies !occurs_at(s, pat, j) by {
                if j >= 1 && occurs_at(s, pat, j) {
                    assert(occurs_at(t, pat, j - 1));
                }
            }
        }
    }
}

/// Split `s` at every occurrence of `pat`, leftmost first. Always yields at
/// least one piece; no piece contains an occurrence of `pat`.
pub open spec fn split_by(s: Seq<u8>, pat: Seq<u8>) -> Seq<Seq<u8>>
    decreases s.len(),
    when pat.len() > 0
{
    let i = find_sub(s, pat);
    if i < 0 || i + pat.len() > s.len() {
        seq![s]
    } else {
        seq![s.subrange(0, i)] + split_by(
            s.subrange(i + pat.len() as int, s.len() as int),
            pat,
        )
    }
}

/// Concatenate `pieces` with `pat` between consecutive pieces.
pub open spec fn join_by(pieces: Seq<Seq<u8>>, pat: Seq<u8>) -> Seq<u8>
    decreases pieces.len(),
{
    if pieces.len() == 0 {
        Seq::empty()
    } else if pieces.len() == 1 {
        pieces[0]
    } else {
        pieces[0] + pat + join_by(pieces.drop_first(), pat)
    }
}

/// `pat` does not occur anywhere inside `s`.
pub open spec fn free_of(s: Seq<u8>, pat: Seq<u8>) -> bool {
    forall|j: int| !occurs_at(s, pat, j)
}

/// Transfers an occurrence into the left part of a concatenation.
proof fn lemma_occurs_prefix(a: Seq<u8>, b: Seq<u8>, pat: Seq<u8>, j: int)
    requires
        0 <= j,
        j + pat.len() <= a.len(),
        occurs_at(a + b, pat, j),
    ensures
        occurs_at(a, pat, j),
{
    assert(a.subrange(j, j + pat.len() as int) =~= (a + b).subrange(j, j + pat.len() as int));
}

/// Splitting the join of pieces on a one- or two-byte separator whose bytes
/// differ recovers the pieces, provided no piece contains the separator.
pub proof fn lemma_split_join(pieces: Seq<Seq<u8>>, pat: Seq<u8>)
    requires
        1 <= pat.len() <= 2,
        pat.len() == 2 ==> pat[0] != pat[1],
        pieces.len() >= 1,
        forall|k: int| 0 <= k < pieces.len() ==> free_of(#[trigger] pieces[k], pat),
    ensures
        split_by(join_by(pieces, pat), pat) == pieces,
    decreases pieces.len(),
{
    lemma_find_sub_char(join_by(pieces, pat), pat);
    if pieces.len() == 1 {
        assert(free_of(pieces[0], pat));
        assert(split_by(join_by(pieces, pat), pat) =~= pieces);
    } else {
        let p0 = pieces[0];
        let rest = pieces.drop_first();
        let s = join_by(pieces, pat);
        let tail = join_by(rest, pat);
        assert(s == p0 + pat + tail);
        let m = pat.len() as int;
        let n = p0.len() as int;
        assert(occurs_at(s, pat, n)) by {
            assert(s.subrange(n, n + m) =~= pat);
        }
        assert forall|j: int| 0 <= j < n implies !occurs_at(s, pat, j) by {
            if occurs_at(s, pat, j) {
                if j + m <= n {
                    assert(s =~= p0 + (pat + tail));
                    lemma_occurs_prefix(p0, pat + tail, pat, j);
                    assert(occurs_at(p0, pat, j));
                } else {
                    // The window starts inside p0 and reaches into the
                    // separator: only possible for a two-byte separator with
                    // equal bytes, which is excluded.
                    assert(m == 2 && j == n - 1);
                    assert(s[j + 1] == pat[0]);
                    assert(s.subrange(j, j + m)[1] == s[j + 1]);
                    assert(s[j + 1] == pat[1]);
                }
            }
        }
        assert(find_sub(s, pat) == n) by {
            let f = find_sub(s, pat);
            if f < 0 {
                assert(occurs_at(s, pat, n));
            } else if f < n {
                assert(!occurs_at(s, pat, f));
            } else if f > n {
                assert(!occurs_at(s, pat, n));
            }
        }
        assert(s.subrange(0, n) =~= p0);
        assert(s.subrange(n + m, s.len() as int) =~= tail);
        lemma_split_join(rest, pat);
        assert(split_by(s, pat) =~= seq![p0] + split_by(tail, pat));
        assert(seq![p0] + rest =~= pieces);
    }
}

/// Every byte of `s` is in the seven-bit ASCII range.
pub open spec fn ascii_seq(s: Seq<u8>) -> bool {
    forall|i: int| 0 <= i < s.len() ==> s[i] < 128
}

/// ASCII bytes are valid UTF-8 and decode one character per byte.
pub proof fn lemma_ascii_decode(s: Seq<u8>)
    requires
        ascii_seq(s),
    ensures
        valid_utf8(s),
        decode_utf8(s) =~= Seq::new(s.len(), |i: int| s[i] as char),
        encode_utf8(decode_utf8(s)) == s,
{
    let chars = Seq::new(s.len(), |i: int| s[i] as char);
    assert(is_ascii_chars(chars));
    is_ascii_chars_encode_utf8(chars);
    assert(encode_utf8(chars) =~= s);
    encode_utf8_valid_utf8(chars);
    encode_utf8_decode_utf8(chars);
    decode_utf8_encode_utf8(s);
}

/// Relies on `String::from_utf8_lossy` (std): bytes that form valid UTF-8
/// convert losslessly to the character sequence they encode.
#[verifier::external_body]
pub fn lossy_string(v: &[u8]) -> (r: String)
    ensures
        valid_utf8(v@) ==> r@ == decode_utf8(v@),
{
    String::from_utf8_lossy(v).into_owned()
}

/// Append all of `s` to `out`.
pub fn push_bytes(out: &mut Vec<u8>, s: &[u8])
    ensures
        final(out)@ == old(out)@ + s@,
{
    let mut i: usize = 0;
    while i < s.len()
        invariant
            i <= s@.len(),
            out@ == old(out)@ + s@.subrange(0, i as int),
        decreases s@.len() - i,
    {
        out.push(s[i]);
        i = i + 1;
        assert(old(out)@ + s@.subrange(0, i as int) =~= (old(out)@ + s@.subrange(
            0,
            i - 1,
        )).push(s@[i - 1]));
    }
    assert(s@.subrange(0, s@.len() as int) =~= s@);
}

/// The bytes of two slices are equal.
pub fn bytes_eq(a: &[u8], b: &[u8]) -> (r: bool)
    ensures
        r == (a@ == b@),
{
    if a.len() != b.len() {
        assert(a@ != b@) by {
            assert(a@.len() != b@.len());
        }
        return false;
    }
    let mut i: usize = 0;
    while i < a.len()
        invariant
            a@.len() == b@.len(),
            i <= a@.len(),
            forall|j: int| 0 <= j < i ==> a@[j] == b@[j],
        decreases a@.len() - i,
    {
        if a[i] != b[i] {
            return false;
        }
        i = i + 1;
    }
    assert(a@ =~= b@);
    true
}

/// Copy of `s[from..to]` as a new vector.
pub fn subrange_vec(s: &[u8], from: usize, to: usize) -> (r: Vec<u8>)
    requires
        from <= to <= s@.len(),
    ensures
        r@ == s@.subrange(from as int, to as int),
{
    let mut out: Vec<u8> = Vec::new();
    let mut i: usize = from;
    while i < to
        invariant
            from <= i <= to <= s@.len(),
            out@ == s@.subrange(from as int, i as int),
        decreases to - i,
    {
        out.push(s[i]);
        i = i + 1;
        assert(s@.subrange(from as int, i as int) =~= s@.subrange(from as int, i - 1).push(
            s@[i - 1],
        ));
    }
    out
}

/// Leftmost occurrence of `pat` in `s` at or after `from`, scanning forward.
pub fn find_pattern_from(s: &[u8], pat: &[u8], from: usize) -> (r: Option<usize>)
    requires
        pat@.len() >= 1,
        from <= s@.len(),
    ensures
        match r {
            Some(i) => from <= i && occurs_at(s@, pat@, i as int) && (forall|j: int|
                from <= j < i ==> !occurs_at(s@, pat@, j)),
            None => forall|j: int| from <= j ==> !occurs_at(s@, pat@, j),
        },
{
    if s.len() < pat.len() || from > s.len() - pat.len() {
        assert forall|j: int| from <= j implies !occurs_at(s@, pat@, j) by {}
        return None;
    }
    let last: usize = s.len() - pat.len();
    let mut i: usize = from;
    while i <= last
        invariant
            from <= i <= last + 1,
            last == s@.len() - pat@.len(),
            pat@.len() >= 1,
            s@.len() <= usize::MAX,
            forall|j: int| from <= j < i ==> !occurs_at(s@, pat@, j),
        decreases last + 1 - i,
    {
        let mut k: usize = 0;
        let mut ok: bool = true;
        while k < pat.len()
            invariant
                i + pat@.len() <= s@.len(),
                s@.len() <= usize::MAX,
                k <= pat@.len(),
                !ok ==> k == pat@.len(),
                ok <==> (forall|t: int| 0 <= t < k ==> s@[i + t] == pat@[t]),
            decreases pat@.len() - k,
        {
            if s[i + k] != pat[k] {
                ok = false;
                k = pat.len();
            } else {
                let ghost k0 = k as int;
                assert forall|t: int| 0 <= t < k0 + 1 implies s@[i + t] == pat@[t] by {
                    if t < k0 {
                        assert(s@[i + t] == pat@[t]);
                    }
                }
                k = k + 1;
            }
        }
        if ok {
            assert(occurs_at(s@, pat@, i as int)) by {
                assert(s@.subrange(i as int, i + pat@.len() as int) =~= pat@);
            }
            return Some(i);
        }
        assert(!occurs_at(s@, pat@, i as int)) by {
            let sub = s@.subrange(i as int, i + pat@.len() as int);
            if sub == pat@ {
                assert(forall|t: int| 0 <= t < pat@.len() ==> sub[t] == s@[i + t]);
            }
        }
        i = i + 1;
    }
    None
}

/// The views of a sequence of byte vectors.
pub open spec fn views_of(s: Seq<Vec<u8>>) -> Seq<Seq<u8>> {
    Seq::new(s.len(), |i: int| s[i]@)
}

/// Pushing a vector onto a sequence pushes its view onto the views.
pub proof fn lemma_views_push(s: Seq<Vec<u8>>, v: Vec<u8>)
    ensures
        views_of(s.push(v)) == views_of(s).push(v@),
{
    assert(views_of(s.push(v)) =~= views_of(s).push(v@));
}

/// Split `s` at every occurrence of `pat`, leftmost first.
pub fn split_slice(s: &[u8], pat: &[u8]) -> (r: Vec<Vec<u8>>)
    requires
        pat@.len() >= 1,
    ensures
        views_of(r@) == split_by(s@, pat@),
        r@.len() >= 1,
{
    let mut out: Vec<Vec<u8>> = Vec::new();
    let mut pos: usize = 0;
    proof {
        assert(s@.subrange(0, s@.len() as int) =~= s@);
        assert(views_of(out@) =~= Seq::<Seq<u8>>::empty());
        assert(Seq::<Seq<u8>>::empty() + split_by(s@, pat@) =~= split_by(s@, pat@));
    }
    loop
        invariant
            pat@.len() >= 1,
            pos <= s@.len(),
            split_by(s@, pat@) == views_of(out@) + split_by(
                s@.subrange(pos as int, s@.len() as int),
                pat@,
            ),
        decreases s@.len() - pos,
    {
        let suffix_len: usize = s.len() - pos;
        let ghost suffix = s@.subrange(pos as int, s@.len() as int);
        proof {
            lemma_find_sub_char(suffix, pat@);
        }
        match find_pattern_from(s, pat, pos) {
            Some(i) => {
                proof {
                    // The occurrence at i corresponds to one at i - pos in the
                    // suffix, and minimality carries over.
                    assert(occurs_at(suffix, pat@, i - pos)) by {
                        assert(suffix.subrange(i - pos, i - pos + pat@.len() as int) =~= s@
                            .subrange(i as int, i + pat@.len() as int));
                    }
                    assert forall|j: int| 0 <= j < i - pos implies !occurs_at(suffix, pat@, j) by {
                        if occurs_at(suffix, pat@, j) {
                            assert(s@.subrange(pos + j, pos + j + pat@.len() as int) =~= suffix
                                .subrange(j, j + pat@.len() as int));
                            assert(occurs_at(s@, pat@, pos + j));
                        }
                    }
                    assert(find_sub(suffix, pat@) == i - pos) by {
                        let f = find_sub(suffix, pat@);
                        if f < 0 {
                            assert(occurs_at(suffix, pat@, i - pos));
                        } else if f < i - pos {
                            assert(!occurs_at(suffix, pat@, f));
                        } else if f > i - pos {
                            assert(!occurs_at(suffix, pat@, i - pos));
                        }
                    }
                }
                let piece = subrange_vec(s, pos, i);
                let new_pos: usize = i + pat.len();
                proof {
                    assert(piece@ =~= suffix.subrange(0, i - pos)) by {
                        assert(suffix.subrange(0, i - pos) =~= s@.subrange(pos as int, i as int));
                    }
                    assert(s@.subrange(new_pos as int, s@.len() as int) =~= suffix.subrange(
                        i - pos + pat@.len() as int,
                        suffix.len() as int,
                    ));
                    assert(split_by(suffix, pat@) == seq![piece@] + split_by(
                        s@.subrange(new_pos as int, s@.len() as int),
                        pat@,
                    ));
                }
                let ghost prev_view = out@;
                out.push(piece);
                proof {
                    lemma_views_push(prev_view, piece);
                    assert(views_of(out@) + split_by(
                        s@.subrange(new_pos as int, s@.len() as int),
                        pat@,
                    ) =~= split_by(s@, pat@));
                }
                pos = new_pos;
            },
            None => {
                proof {
                    assert forall|j: int| 0 <= j implies !occurs_at(suffix, pat@, j) by {
                        if occurs_at(suffix, pat@, j) {
                            assert(s@.subrange(pos + j, pos + j + pat@.len() as int) =~= suffix
                                .subrange(j, j + pat@.len() as int));
                            assert(occurs_at(s@, pat@, pos + j));
                        }
                    }
                    assert(find_sub(suffix, pat@) == -1);
                    assert(split_by(suffix, pat@) == seq![suffix]);
                }
                let piece = subrange_vec(s, pos, s.len());
                let ghost prev_view = out@;
                out.push(piece);
                proof {
                    lemma_views_push(prev_view, piece);
                    assert(views_of(out@) =~= split_by(s@, pat@));
                }
                return out;
            },
        }
    }
}


/// ASCII upper-casing of a single byte: `a`..`z` map to `A`..`Z`.
pub open spec fn upper_byte(b: u8) -> u8 {
    if 97 <= b <= 122 {
        (b - 32) as u8
    } else {
        b
    }
}

/// ASCII upper-casing of a byte sequence.
pub open spec fn upper_bytes(s: Seq<u8>) -> Seq<u8> {
    s.map_values(|b: u8| upper_byte(b))
}

/// ASCII upper-case copy of a byte slice.
pub fn to_upper(s: &[u8]) -> (r: Vec<u8>)
    ensures
        r@ == upper_bytes(s@),
{
    let mut out: Vec<u8> = Vec::new();
    let mut i: usize = 0;
    while i < s.len()
        invariant
            i <= s@.len(),
            out@.len() == i,
            forall|j: int| 0 <= j < i ==> out@[j] == upper_byte(s@[j]),
        decreases s@.len() - i,
    {
        let b = s[i];
        if 97 <= b && b <= 122 {
            out.push(b - 32);
        } else {
            out.push(b);
        }
        i = i + 1;
    }
    assert(out@ =~= upper_bytes(s@));
    out
}

/// The byte is an ASCII decimal digit.
pub open spec fn is_digit(b: u8) -> bool {
    48 <= b <= 57
}

/// Every byte of `s` is an ASCII decimal digit.
pub open spec fn all_digits(s: Seq<u8>) -> bool {
    forall|i: int| 0 <= i < s.len() ==> is_digit(#[trigger] s[i])
}

/// Value of a sequence of ASCII decimal digits, most significant first.
pub open spec fn dec_val(s: Seq<u8>) -> int
    decreases s.len(),
{
    if s.len() == 0 {
        0
    } else {
        dec_val(s.drop_last()) * 10 + (s.last() - 48)
    }
}

/// The value a `usize` decimal token denotes: an optional leading `+`,
/// then one or more digits, with the value within range.
pub open spec fn usize_token(s: Seq<u8>) -> Option<int> {
    let digits = if s.len() > 0 && s[0] == 43 {
        s.drop_first()
    } else {
        s
    };
    if digits.len() > 0 && all_digits(digits) && dec_val(digits) <= usize::MAX {
        Some(dec_val(digits))
    } else {
        None
    }
}

/// The value an `i16` decimal token denotes: an optional sign, then one or
/// more digits, with the signed value within range.
pub open spec fn i16_token(s: Seq<u8>) -> Option<int> {
    let neg = s.len() > 0 && s[0] == 45;
    let digits = if s.len() > 0 && (s[0] == 43 || s[0] == 45) {
        s.drop_first()
    } else {
        s
    };
    if digits.len() > 0 && all_digits(digits) {
        let v = if neg {
            -dec_val(digits)
        } else {
            dec_val(digits)
        };
        if i16::MIN <= v <= i16::MAX {
            Some(v)
        } else {
            None
        }
    } else {
        None
    }
}

/// A digit sequence has a non-negative value.
pub proof fn lemma_dec_val_nonneg(s: Seq<u8>)
    requires
        all_digits(s),
    ensures
        dec_val(s) >= 0,
    decreases s.len(),
{
    if s.len() > 0 {
        assert(all_digits(s.drop_last())) by {
            assert(forall|i: int| 0 <= i < s.len() - 1 ==> s.drop_last()[i] == s[i]);
        }
        lemma_dec_val_nonneg(s.drop_last());
    }
}

/// Extending a digit sequence on the right multiplies its value by ten.
pub proof fn lemma_dec_val_step(s: Seq<u8>, k: int)
    requires
        0 <= k < s.len(),
    ensures
        dec_val(s.subrange(0, k + 1)) == dec_val(s.subrange(0, k)) * 10 + (s[k] - 48),
{
    let p = s.subrange(0, k + 1);
    assert(p.drop_last() =~= s.subrange(0, k));
    assert(p.last() == s[k]);
}

/// The value of a digit prefix never exceeds the value of the whole.
pub proof fn lemma_dec_val_prefix(s: Seq<u8>, k: int)
    requires
        all_digits(s),
        0 <= k <= s.len(),
    ensures
        dec_val(s.subrange(0, k)) <= dec_val(s),
    decreases s.len() - k,
{
    if k == s.len() {
        assert(s.subrange(0, k) =~= s);
    } else {
        lemma_dec_val_step(s, k);
        let a = dec_val(s.subrange(0, k));
        assert(all_digits(s.subrange(0, k))) by {
            assert(forall|i: int| 0 <= i < k ==> s.subrange(0, k)[i] == s[i]);
        }
        lemma_dec_val_nonneg(s.subrange(0, k));
        assert(a * 10 >= a) by (nonlinear_arith)
            requires
                a >= 0,
        ;
        lemma_dec_val_prefix(s, k + 1);
    }
}

/// Parse a `usize` decimal token, exactly as its specification describes.
pub fn parse_usize(s: &[u8]) -> (r: Option<usize>)
    ensures
        match r {
            Some(v) => usize_token(s@) == Some(v as int),
            None => usize_token(s@) is None,
        },
{
    let start: usize = if s.len() > 0 && s[0] == 43 {
        1
    } else {
        0
    };
    let ghost digits = s@.subrange(start as int, s@.len() as int);
    assert(s@.len() > 0 && s@[0] == 43 ==> digits =~= s@.drop_first());
    assert(start == 0 ==> digits =~= s@);
    if s.len() == start {
        assert(digits.len() == 0);
        return None;
    }
    let mut acc: usize = 0;
    let mut i: usize = start;
    while i < s.len()
        invariant
            start <= i <= s@.len(),
            s@.len() <= usize::MAX,
            digits == s@.subrange(start as int, s@.len() as int),
            digits == (if s@.len() > 0 && s@[0] == 43 {
                s@.drop_first()
            } else {
                s@
            }),
            digits.len() > 0,
            all_digits(digits.subrange(0, i - start)),
            acc as int == dec_val(digits.subrange(0, i - start)),
        decreases s@.len() - i,
    {
        let b = s[i];
        if b < 48 || b > 57 {
            assert(!is_digit(digits[i - start]));
            return None;
        }
        let ghost k = i - start;
        proof {
            lemma_dec_val_step(digits, k);
            assert(forall|t: int| 0 <= t < k + 1 ==> digits.subrange(0, k + 1)[t] == digits[t]);
            assert(all_digits(digits.subrange(0, k + 1)));
        }
        let next = match acc.checked_mul(10) {
            Some(m) => m.checked_add((b - 48) as usize),
            None => None,
        };
        match next {
            Some(v) => {
                acc = v;
            },
            None => {
                proof {
                    // Overflow: the value of the whole token exceeds the range.
                    assert(dec_val(digits.subrange(0, k + 1)) > usize::MAX);
                    if all_digits(digits) {
                        lemma_dec_val_prefix(digits, k + 1);
                    }
                }
                return None;
            },
        }
        i = i + 1;
    }
    assert(digits.subrange(0, s@.len() - start) =~= digits);
    Some(acc)
}

/// Parse an `i16` decimal token, exactly as its specification describes.
pub fn parse_i16(s: &[u8]) -> (r: Option<i16>)
    ensures
        match r {
            Some(v) => i16_token(s@) == Some(v as int),
            None => i16_token(s@) is None,
        },
{
    let neg: bool = s.len() > 0 && s[0] == 45;
    let start: usize = if s.len() > 0 && (s[0] == 43 || s[0] == 45) {
        1
    } else {
        0
    };
    let ghost digits = s@.subrange(start as int, s@.len() as int);
    assert(start == 1 ==> digits =~= s@.drop_first());
    assert(start == 0 ==> digits =~= s@);
    if s.len() == start {
        return None;
    }
    let mut acc: u32 = 0;
    let mut i: usize = start;
    while i < s.len()
        invariant
            start <= i <= s@.len(),
            s@.len() <= usize::MAX,
            digits == s@.subrange(start as int, s@.len() as int),
            digits == (if s@.len() > 0 && (s@[0] == 43 || s@[0] == 45) {
                s@.drop_first()
            } else {
                s@
            }),
            digits.len() > 0,
            all_digits(digits.subrange(0, i - start)),
            acc as int == dec_val(digits.subrange(0, i - start)),
            acc <= 32768,
        decreases s@.len() - i,
    {
        let b = s[i];
        if b < 48 || b > 57 {
            assert(!is_digit(digits[i - start]));
            return None;
        }
        let ghost k = i - start;
        proof {
            lemma_dec_val_step(digits, k);
            assert(forall|t: int| 0 <= t < k + 1 ==> digits.subrange(0, k + 1)[t] == digits[t]);
            assert(all_digits(digits.subrange(0, k + 1)));
        }
        let v: u32 = acc * 10 + (b - 48) as u32;
        if v > 32768 {
            proof {
                assert(dec_val(digits.subrange(0, k + 1)) > 32768);
                if all_digits(digits) {
                    lemma_dec_val_prefix(digits, k + 1);
                    lemma_dec_val_nonneg(digits);
                }
            }
            return None;
        }
        acc = v;
        i = i + 1;
    }
    assert(digits.subrange(0, s@.len() - start) =~= digits);
    if neg {
        Some(0i16.checked_sub_unsigned(acc as u16).unwrap_or(i16::MIN))
    } else if acc <= 32767 {
        Some(acc as i16)
    } else {
        None
    }
}

/// The decimal digit bytes of a non-negative number, most significant first.
pub open spec fn dec_digits(n: int) -> Seq<u8>
    decreases n,
    when n >= 0
{
    if n < 10 {
        seq![(n + 48) as u8]
    } else {
        dec_digits(n / 10) + seq![((n % 10) + 48) as u8]
    }
}

/// The digit rendering of a number denotes that number, consists only of
/// digits, and is never empty.
pub proof fn lemma_dec_digits(n: int)
    requires
        n >= 0,
    ensures
        all_digits(dec_digits(n)),
        dec_val(dec_digits(n)) == n,
        dec_digits(n).len() >= 1,
        is_digit(dec_digits(n)[0]),
    decreases n,
{
    if n < 10 {
        let d = dec_digits(n);
        assert(d == seq![(n + 48) as u8]);
        assert(d.len() == 1);
        assert(d.drop_last() =~= Seq::<u8>::empty());
        assert(dec_val(d.drop_last()) == 0);
        assert(d.last() == (n + 48) as u8);
        assert(dec_val(d) == dec_val(d.drop_last()) * 10 + (d.last() - 48));
    } else {
        lemma_dec_digits(n / 10);
        let d = dec_digits(n);
        let p = dec_digits(n / 10);
        assert(d.drop_last() =~= p);
        assert(d.last() == ((n % 10) + 48) as u8);
        assert(dec_val(d) == dec_val(p) * 10 + (n % 10));
        assert((n / 10) * 10 + (n % 10) == n) by (nonlinear_arith);
        assert(all_digits(d)) by {
            assert(forall|i: int| 0 <= i < p.len() ==> d[i] == p[i]);
            assert(d[d.len() - 1] == ((n % 10) + 48) as u8);
        }
    }
}

/// Render a number as decimal digit bytes.
pub fn format_usize(n: usize) -> (r: Vec<u8>)
    ensures
        r@ == dec_digits(n as int),
{
    let mut rev: Vec<u8> = Vec::new();
    let mut m: usize = n;
    loop
        invariant_except_break
            rev@.len() == 0 ==> m == n,
            rev@.len() > 0 ==> m > 0 && dec_digits(n as int) == dec_digits(m as int)
                + rev@.reverse(),
        ensures
            dec_digits(n as int) == rev@.reverse(),
        decreases m,
    {
        let ghost m0 = m as int;
        let d: u8 = (m % 10) as u8 + 48;
        let ghost prev = rev@;
        rev.push(d);
        proof {
            assert(rev@.reverse() =~= seq![d] + prev.reverse());
            if m0 >= 10 {
                assert(dec_digits(m0) == dec_digits(m0 / 10) + seq![d]);
                assert(dec_digits(m0 / 10) + (seq![d] + prev.reverse()) =~= (dec_digits(m0 / 10)
                    + seq![d]) + prev.reverse());
            } else {
                assert(dec_digits(m0) =~= seq![d]);
            }
            if prev.len() > 0 {
                assert(dec_digits(n as int) == dec_digits(m0) + prev.reverse());
                if m0 >= 10 {
                    assert(dec_digits(n as int) =~= dec_digits(m0 / 10) + rev@.reverse()) by {
                        assert(dec_digits(m0) + prev.reverse() =~= dec_digits(m0 / 10) + (seq![d]
                            + prev.reverse()));
                    }
                } else {
                    assert(dec_digits(n as int) =~= rev@.reverse()) by {
                        assert(dec_digits(m0) + prev.reverse() =~= seq![d] + prev.reverse());
                    }
                }
            } else {
                assert(m0 == n);
                if m0 >= 10 {
                    assert(dec_digits(n as int) =~= dec_digits(m0 / 10) + rev@.reverse()) by {
                        assert(prev.reverse() =~= Seq::<u8>::empty());
                        assert(seq![d] + prev.reverse() =~= seq![d]);
                    }
                } else {
                    assert(dec_digits(n as int) =~= rev@.reverse()) by {
                        assert(prev.reverse() =~= Seq::<u8>::empty());
                        assert(seq![d] + prev.reverse() =~= seq![d]);
                    }
                }
            }
            assert(m0 / 10 == (m0 / 10) as usize as int) by {
                assert(0 <= m0 / 10 <= m0);
            }
        }
        m = m / 10;
        if m == 0 {
            break;
        }
    }
    let mut out: Vec<u8> = Vec::new();
    let mut i: usize = rev.len();
    while i > 0
        invariant
            i <= rev@.len(),
            out@ =~= rev@.subrange(i as int, rev@.len() as int).reverse(),
        decreases i,
    {
        i = i - 1;
        let ghost prev_out = out@;
        out.push(rev[i]);
        proof {
            assert(out@ =~= rev@.subrange(i as int, rev@.len() as int).reverse()) by {
                let sub = rev@.subrange(i as int, rev@.len() as int);
                assert(sub.reverse().len() == sub.len());
                assert(forall|t: int| 0 <= t < sub.len() ==> sub.reverse()[t] == rev@[
                    rev@.len() - 1 - t]);
                assert(forall|t: int| 0 <= t < prev_out.len() ==> prev_out[t] == rev@[
                    rev@.len() - 1 - t]);
            }
        }
    }
    proof {
        assert(rev@.subrange(0, rev@.len() as int) =~= rev@);
    }
    out
}


/// Pieces of an ASCII byte sequence are ASCII.
pub proof fn lemma_split_by_ascii(s: Seq<u8>, pat: Seq<u8>)
    requires
        pat.len() > 0,
        ascii_seq(s),
    ensures
        forall|k: int| 0 <= k < split_by(s, pat).len() ==> ascii_seq(#[trigger] split_by(s, pat)[k]),
    decreases s.len(),
{
    lemma_find_sub_char(s, pat);
    let i = find_sub(s, pat);
    if i < 0 || i + pat.len() > s.len() {
        assert(split_by(s, pat) == seq![s]);
    } else {
        let rest = s.subrange(i + pat.len() as int, s.len() as int);
        assert(ascii_seq(rest));
        lemma_split_by_ascii(rest, pat);
        assert(ascii_seq(s.subrange(0, i)));
        assert forall|k: int| 0 <= k < split_by(s, pat).len() implies ascii_seq(
            #[trigger] split_by(s, pat)[k],
        ) by {
            if k == 0 {
                assert(split_by(s, pat)[0] == s.subrange(0, i));
            } else {
                assert(split_by(s, pat)[k] == split_by(rest, pat)[k - 1]);
            }
        }
    }
}

/// ASCII upper-casing keeps a sequence ASCII.
pub proof fn lemma_upper_ascii(s: Seq<u8>)
    requires
        ascii_seq(s),
    ensures
        ascii_seq(upper_bytes(s)),
{
    assert forall|i: int| 0 <= i < upper_bytes(s).len() implies upper_bytes(s)[i] < 128 by {
        assert(upper_bytes(s)[i] == upper_byte(s[i]));
    }
}


/// Splitting a text that begins with a separator-free piece followed by the
/// separator peels off exactly that piece.
pub proof fn lemma_split_step(x: Seq<u8>, y: Seq<u8>, pat: Seq<u8>)
    requires
        1 <= pat.len() <= 2,
        pat.len() == 2 ==> pat[0] != pat[1],
        free_of(x, pat),
    ensures
        split_by(x + pat + y, pat) == seq![x] + split_by(y, pat),
{
    let s = x + pat + y;
    let m = pat.len() as int;
    let n = x.len() as int;
    lemma_find_sub_char(s, pat);
    assert(occurs_at(s, pat, n)) by {
        assert(s.subrange(n, n + m) =~= pat);
    }
    assert forall|j: int| 0 <= j < n implies !occurs_at(s, pat, j) by {
        if occurs_at(s, pat, j) {
            if j + m <= n {
                assert(s =~= x + (pat + y));
                lemma_occurs_prefix(x, pat + y, pat, j);
                assert(occurs_at(x, pat, j));
            } else {
                assert(m == 2 && j == n - 1);
                assert(s[j + 1] == pat[0]);
                assert(s.subrange(j, j + m)[1] == s[j + 1]);
                assert(s[j + 1] == pat[1]);
            }
        }
    }
    assert(find_sub(s, pat) == n) by {
        let f = find_sub(s, pat);
        if f < 0 {
            assert(occurs_at(s, pat, n));
        } else if f < n {
            assert(!occurs_at(s, pat, f));
        } else if f > n {
            assert(!occurs_at(s, pat, n));
        }
    }
    assert(s.subrange(0, n) =~= x);
    assert(s.subrange(n + m, s.len() as int) =~= y);
    assert(split_by(s, pat) =~= seq![x] + split_by(y, pat));
}

} // verus!
