//! The snapshot format.
//!
//! A snapshot is a flat concatenation of entries with no separators and no
//! header. Each entry is four fields: the key's length in characters as
//! eight lowercase hexadecimal digits, the key, the value's length in the
//! same form, and the value.
use vstd::prelude::*;

verus! {

/// Width in characters of a length field.
pub const FIELD_WIDTH: usize = 8;

/// The largest length a field can record.
pub const MAX_FIELD_LEN: usize = 0xffff_ffff;

/// The digits of a length field, by value.
pub open spec fn hex_alphabet() -> Seq<char> {
    seq!['0', '1', '2', '3', '4', '5', '6', '7', '8', '9', 'a', 'b', 'c', 'd', 'e', 'f']
}

/// The value of one digit of a length field, if `c` is one.
pub open spec fn digit_value(c: char) -> Option<nat> {
    if c == '0' { Some(0) }
    else if c == '1' { Some(1) }
    else if c == '2' { Some(2) }
    else if c == '3' { Some(3) }
    else if c == '4' { Some(4) }
    else if c == '5' { Some(5) }
    else if c == '6' { Some(6) }
    else if c == '7' { Some(7) }
    else if c == '8' { Some(8) }
    else if c == '9' { Some(9) }
    else if c == 'a' { Some(10) }
    else if c == 'b' { Some(11) }
    else if c == 'c' { Some(12) }
    else if c == 'd' { Some(13) }
    else if c == 'e' { Some(14) }
    else if c == 'f' { Some(15) }
    else { None }
}

/// Sixteen to the power `w`.
pub open spec fn pow16(w: nat) -> nat
    decreases w,
{
    if w == 0 { 1 } else { 16 * pow16((w - 1) as nat) }
}

/// `n` written with exactly `w` hexadecimal digits (the high digits of a
/// number that needs more are dropped).
pub open spec fn hex_field(n: nat, w: nat) -> Seq<char>
    decreases w,
{
    if w == 0 {
        Seq::empty()
    } else {
        hex_field(n / 16, (w - 1) as nat).push(hex_alphabet()[(n % 16) as int])
    }
}

/// The number that the digits `s` write, or `None` if one is no digit.
pub open spec fn field_value(s: Seq<char>) -> Option<nat>
    decreases s.len(),
{
    if s.len() == 0 {
        Some(0)
    } else {
        match (field_value(s.drop_last()), digit_value(s.last())) {
            (Some(high), Some(d)) => Some(high * 16 + d),
            _ => None,
        }
    }
}

/// One key and its value, as text.
pub type Entry = (Seq<char>, Seq<char>);

/// Whether both texts of every entry have a length that a field can record.
pub open spec fn fields_fit(es: Seq<Entry>) -> bool {
    forall|i: int| 0 <= i < es.len() ==> es[i].0.len() <= MAX_FIELD_LEN && es[i].1.len() <= MAX_FIELD_LEN
}

/// The four fields of one entry.
pub open spec fn encode_entry(e: Entry) -> Seq<char> {
    hex_field(e.0.len(), 8) + e.0 + hex_field(e.1.len(), 8) + e.1
}

/// The snapshot of the entries `es`, in their order.
pub open spec fn encode_entries(es: Seq<Entry>) -> Seq<char>
    decreases es.len(),
{
    if es.len() == 0 {
        Seq::empty()
    } else {
        encode_entry(es[0]) + encode_entries(es.drop_first())
    }
}

/// Why a text is no snapshot.
#[derive(Clone, Copy, Debug, PartialEq, Eq, Structural)]
pub enum DecodeError {
    /// A length field holds a character that is no lowercase hexadecimal digit.
    BadLength,
    /// The text ends inside a field.
    Truncated,
}

/// The first entry of the text `s` and the number of characters it takes.
pub open spec fn decode_first(s: Seq<char>) -> Result<(Entry, nat), DecodeError> {
    if s.len() < 8 {
        Err(DecodeError::Truncated)
    } else {
        match field_value(s.take(8)) {
            None => Err(DecodeError::BadLength),
            Some(klen) => if s.len() < 16 + klen {
                Err(DecodeError::Truncated)
            } else {
                match field_value(s.subrange(8 + klen as int, 16 + klen as int)) {
                    None => Err(DecodeError::BadLength),
                    Some(vlen) => if s.len() < 16 + klen + vlen {
                        Err(DecodeError::Truncated)
                    } else {
                        Ok((
                            (s.subrange(8, 8 + klen as int), s.subrange(16 + klen as int, 16 + klen + vlen as int)),
                            16 + klen + vlen,
                        ))
                    },
                }
            },
        }
    }
}

/// The entries of the text `s`, read from left to right up to its end.
pub open spec fn decode_entries(s: Seq<char>) -> Result<Seq<Entry>, DecodeError>
    decreases s.len(),
{
    if s.len() == 0 {
        Ok(Seq::empty())
    } else {
        match decode_first(s) {
            Err(e) => Err(e),
            Ok((e, used)) => if 0 < used <= s.len() {
                match decode_entries(s.skip(used as int)) {
                    Err(err) => Err(err),
                    Ok(rest) => Ok(seq![e] + rest),
                }
            } else {
                Err(DecodeError::Truncated)
            },
        }
    }
}

/// The entries `acc` followed by those of `r`, or the error of `r`.
pub open spec fn prepend(acc: Seq<Entry>, r: Result<Seq<Entry>, DecodeError>) -> Result<Seq<Entry>, DecodeError> {
    match r {
        Ok(rest) => Ok(acc + rest),
        Err(e) => Err(e),
    }
}

/// The texts of pairs of strings.
pub open spec fn entries_of(v: Seq<(String, String)>) -> Seq<Entry> {
    v.map_values(|p: (String, String)| (p.0@, p.1@))
}

proof fn lemma_digit(d: nat)
    requires
        d < 16,
    ensures
        digit_value(hex_alphabet()[d as int]) == Some(d),
{
}

fn digit_of(c: char) -> (r: Option<usize>)
    ensures
        r matches Some(d) ==> digit_value(c) == Some(d as nat),
        r is None <==> digit_value(c) is None,
{
    match c {
        '0' => Some(0),
        '1' => Some(1),
        '2' => Some(2),
        '3' => Some(3),
        '4' => Some(4),
        '5' => Some(5),
        '6' => Some(6),
        '7' => Some(7),
        '8' => Some(8),
        '9' => Some(9),
        'a' => Some(10),
        'b' => Some(11),
        'c' => Some(12),
        'd' => Some(13),
        'e' => Some(14),
        'f' => Some(15),
        _ => None,
    }
}

proof fn lemma_field_value_bound(s: Seq<char>)
    requires
        field_value(s) is Some,
    ensures
        field_value(s)->0 < pow16(s.len()),
    decreases s.len(),
{
    if s.len() > 0 {
        lemma_field_value_bound(s.drop_last());
        let high = field_value(s.drop_last())->0;
        let d = digit_value(s.last())->0;
        let p = pow16(s.drop_last().len());
        assert(pow16(s.len()) == 16 * p);
        assert(high * 16 + d < 16 * p) by (nonlinear_arith)
            requires
                high < p,
                d < 16,
        ;
    }
}

/// Reads the length field of `FIELD_WIDTH` characters that starts at `at`.
fn read_field(s: &str, at: usize) -> (r: Option<usize>)
    requires
        at + FIELD_WIDTH <= s@.len() <= usize::MAX,
    ensures
        r matches Some(n) ==> field_value(s@.subrange(at as int, at + 8)) == Some(n as nat),
        r is None <==> field_value(s@.subrange(at as int, at + 8)) is None,
{
    let mut acc: usize = 0;
    let mut j: usize = 0;
    while j < FIELD_WIDTH
        invariant
            j <= FIELD_WIDTH,
            at + FIELD_WIDTH <= s@.len() <= usize::MAX,
            field_value(s@.subrange(at as int, at + j)) == Some(acc as nat),
        decreases FIELD_WIDTH - j,
    {
        let c = s.get_char(at + j);
        let ghost prefix = s@.subrange(at as int, at + j + 1);
        assert(prefix.drop_last() =~= s@.subrange(at as int, at + j));
        assert(prefix.last() == c);
        match digit_of(c) {
            None => {
                proof {
                    assert(s@.subrange(at as int, at + 8).take(prefix.len() as int) =~= prefix);
                    lemma_none_extends(prefix, s@.subrange(at as int, at + 8));
                }
                return None;
            },
            Some(d) => {
                proof {
                    lemma_field_value_bound(prefix);
                    reveal_with_fuel(pow16, 8);
                    assert(pow16(7) == 0x1000_0000);
                    assert(pow16(j as nat) <= pow16(7)) by {
                        lemma_pow16_mono(j as nat, 7);
                    }
                    assert(acc * 16 + d < 16 * pow16(j as nat)) by (nonlinear_arith)
                        requires
                            acc < pow16(j as nat),
                            d < 16,
                    ;
                }
                acc = acc * 16 + d;
            },
        }
        j = j + 1;
    }
    assert(s@.subrange(at as int, at + j) =~= s@.subrange(at as int, at + 8));
    Some(acc)
}

/// Reads a snapshot into its entries, in the order in which they stand.
///
/// Fails on a text that the format does not describe: a length field with a
/// character that is no lowercase hexadecimal digit, or a text that ends
/// inside a field.
pub fn decode_snapshot(text: &str) -> (r: Result<Vec<(String, String)>, DecodeError>)
    ensures
        r matches Ok(v) ==> decode_entries(text@) == Ok::<Seq<Entry>, DecodeError>(entries_of(v@)),
        r matches Err(e) ==> decode_entries(text@) == Err::<Seq<Entry>, DecodeError>(e),
{
    let n = text.unicode_len();
    let mut out: Vec<(String, String)> = Vec::new();
    let mut i: usize = 0;
    assert(text@.skip(0) =~= text@);
    assert(entries_of(out@) =~= Seq::<Entry>::empty());
    while i < n
        invariant
            n == text@.len(),
            i <= n,
            decode_entries(text@) == prepend(entries_of(out@), decode_entries(text@.skip(i as int))),
        decreases n - i,
    {
        let ghost rest = text@.skip(i as int);
        if n - i < FIELD_WIDTH {
            return Err(DecodeError::Truncated);
        }
        assert(text@.subrange(i as int, i + 8) =~= rest.take(8));
        let klen = match read_field(text, i) {
            None => return Err(DecodeError::BadLength),
            Some(k) => k,
        };
        let key_at = i + FIELD_WIDTH;
        if n - key_at < klen || n - key_at - klen < FIELD_WIDTH {
            return Err(DecodeError::Truncated);
        }
        let vfield_at = key_at + klen;
        assert(text@.subrange(vfield_at as int, vfield_at + 8) =~= rest.subrange(8 + klen, 16 + klen));
        let vlen = match read_field(text, vfield_at) {
            None => return Err(DecodeError::BadLength),
            Some(k) => k,
        };
        let val_at = vfield_at + FIELD_WIDTH;
        if n - val_at < vlen {
            return Err(DecodeError::Truncated);
        }
        let end = val_at + vlen;
        let key = String::from_str(text.substring_char(key_at, vfield_at));
        let value = String::from_str(text.substring_char(val_at, end));
        assert(key@ =~= rest.subrange(8, 8 + klen));
        assert(value@ =~= rest.subrange(16 + klen, 16 + klen + vlen));
        let ghost before = out@;
        out.push((key, value));
        assert(entries_of(out@) =~= entries_of(before) + seq![(key@, value@)]);
        assert(rest.skip(16 + klen + vlen) =~= text@.skip(end as int));
        assert(entries_of(out@) + decode_entries(text@.skip(end as int))->Ok_0 =~= entries_of(before) + (seq![(key@, value@)] + decode_entries(text@.skip(end as int))->Ok_0));
        i = end;
    }
    assert(text@.skip(n as int) =~= Seq::<char>::empty());
    assert(entries_of(out@) + Seq::<Entry>::empty() =~= entries_of(out@));
    Ok(out)
}

proof fn lemma_encode_push(es: Seq<Entry>, e: Entry)
    ensures
        encode_entries(es.push(e)) == encode_entries(es) + encode_entry(e),
    decreases es.len(),
{
    if es.len() == 0 {
        assert(es.push(e).drop_first() =~= Seq::<Entry>::empty());
        assert(es.push(e)[0] == e);
        assert(encode_entries(es.push(e).drop_first()) == Seq::<char>::empty());
        assert(encode_entries(es) == Seq::<char>::empty());
        assert(encode_entries(es.push(e)) =~= encode_entries(es) + encode_entry(e));
    } else {
        assert(es.push(e).drop_first() =~= es.drop_first().push(e));
        lemma_encode_push(es.drop_first(), e);
        let a = encode_entry(es[0]);
        let b = encode_entries(es.drop_first());
        assert(es.push(e)[0] == es[0]);
        assert(encode_entries(es.push(e)) == a + (b + encode_entry(e)));
        assert(a + (b + encode_entry(e)) =~= (a + b) + encode_entry(e));
    }
}

/// Writes the snapshot of `entries`, in their order, or `None` where a key
/// or a value is longer than a length field can record.
pub fn encode_snapshot(entries: &Vec<(String, String)>) -> (r: Option<String>)
    ensures
        r is Some <==> fields_fit(entries_of(entries@)),
        r matches Some(s) ==> s@ == encode_entries(entries_of(entries@)),
{
    let ghost es = entries_of(entries@);
    let mut out = String::new();
    let mut i: usize = 0;
    assert(es.take(0) =~= Seq::<Entry>::empty());
    while i < entries.len()
        invariant
            es == entries_of(entries@),
            i <= entries.len(),
            fields_fit(es.take(i as int)),
            out@ == encode_entries(es.take(i as int)),
        decreases entries.len() - i,
    {
        let key = entries[i].0.as_str();
        let value = entries[i].1.as_str();
        let klen = key.unicode_len();
        let vlen = value.unicode_len();
        if klen > MAX_FIELD_LEN || vlen > MAX_FIELD_LEN {
            assert(!fields_fit(es)) by {
                assert(es[i as int] == (key@, value@));
            }
            return None;
        }
        let ghost before = out@;
        push_hex_field(&mut out, klen, FIELD_WIDTH);
        out.append(key);
        push_hex_field(&mut out, vlen, FIELD_WIDTH);
        out.append(value);
        proof {
            assert(es.take(i + 1) =~= es.take(i as int).push(es[i as int]));
            lemma_encode_push(es.take(i as int), es[i as int]);
            assert(out@ =~= before + encode_entry((key@, value@)));
        }
        i = i + 1;
    }
    assert(es.take(i as int) =~= es);
    Some(out)
}

proof fn lemma_hex_field(n: nat, w: nat)
    requires
        n < pow16(w),
    ensures
        hex_field(n, w).len() == w,
        field_value(hex_field(n, w)) == Some(n),
    decreases w,
{
    if w > 0 {
        let p = pow16((w - 1) as nat);
        assert(n / 16 < p) by (nonlinear_arith)
            requires
                n < 16 * p,
        ;
        lemma_hex_field(n / 16, (w - 1) as nat);
        lemma_digit(n % 16);
        let f = hex_field(n, w);
        assert(f.drop_last() =~= hex_field(n / 16, (w - 1) as nat));
        assert(n == (n / 16) * 16 + n % 16);
    }
}

proof fn lemma_field_canonical(s: Seq<char>)
    requires
        field_value(s) is Some,
    ensures
        hex_field(field_value(s)->0, s.len()) == s,
    decreases s.len(),
{
    if s.len() > 0 {
        let high = field_value(s.drop_last())->0;
        let d = digit_value(s.last())->0;
        let n = high * 16 + d;
        lemma_field_canonical(s.drop_last());
        assert(n / 16 == high && n % 16 == d) by (nonlinear_arith)
            requires
                n == high * 16 + d,
                d < 16,
        ;
        assert(hex_alphabet()[d as int] == s.last());
        assert(hex_field(n, s.len()) =~= s);
    } else {
        assert(hex_field(field_value(s)->0, 0) =~= s);
    }
}

/// Reading the snapshot of entries whose lengths fit in their fields gives
/// back the same entries, in the same order.
#[verifier::rlimit(50)]
pub proof fn lemma_round_trip(es: Seq<Entry>)
    requires
        fields_fit(es),
    ensures
        decode_entries(encode_entries(es)) == Ok::<Seq<Entry>, DecodeError>(es),
    decreases es.len(),
{
    if es.len() == 0 {
        assert(encode_entries(es) =~= Seq::<char>::empty());
        assert(es =~= Seq::<Entry>::empty());
    } else {
        let (k, v) = es[0];
        let rest = es.drop_first();
        assert(fields_fit(rest)) by {
            assert forall|i: int| 0 <= i < rest.len() implies rest[i].0.len() <= MAX_FIELD_LEN && rest[i].1.len() <= MAX_FIELD_LEN by {
                assert(rest[i] == es[i + 1]);
            }
        }
        lemma_round_trip(rest);
        lemma_pow16_8();
        lemma_hex_field(k.len(), 8);
        lemma_hex_field(v.len(), 8);
        let s = encode_entries(es);
        let kl = k.len() as int;
        let vl = v.len() as int;
        assert(s == encode_entry(es[0]) + encode_entries(rest));
        assert(s.take(8) =~= hex_field(k.len(), 8));
        assert(s.subrange(8 + kl, 16 + kl) =~= hex_field(v.len(), 8));
        assert(s.subrange(8, 8 + kl) =~= k);
        assert(s.subrange(16 + kl, 16 + kl + vl) =~= v);
        assert(s.skip(16 + kl + vl) =~= encode_entries(rest));
        assert(seq![(k, v)] + rest =~= es);
    }
}

/// A text is read without error only when it is exactly the snapshot of
/// what was read from it: no text yields entries that it does not spell out.
#[verifier::rlimit(50)]
pub proof fn lemma_decode_exact(s: Seq<char>)
    requires
        decode_entries(s) is Ok,
    ensures
        encode_entries(decode_entries(s)->Ok_0) == s,
        fields_fit(decode_entries(s)->Ok_0),
    decreases s.len(),
{
    let es = decode_entries(s)->Ok_0;
    if s.len() == 0 {
        assert(encode_entries(es) =~= s);
    } else {
        let ((k, v), used) = decode_first(s)->Ok_0;
        let kl = k.len() as int;
        let vl = v.len() as int;
        let tail = s.skip(used as int);
        lemma_decode_exact(tail);
        let rest = decode_entries(tail)->Ok_0;
        assert(es =~= seq![(k, v)] + rest);
        assert(es[0] == (k, v));
        assert(es.drop_first() =~= rest);
        lemma_field_canonical(s.take(8));
        lemma_field_canonical(s.subrange(8 + kl, 16 + kl));
        lemma_field_value_bound(s.take(8));
        lemma_field_value_bound(s.subrange(8 + kl, 16 + kl));
        lemma_pow16_8();
        assert(s.take(8).len() == 8);
        assert(encode_entry((k, v)) + tail =~= s);
        assert forall|i: int| 0 <= i < es.len() implies es[i].0.len() <= MAX_FIELD_LEN && es[i].1.len() <= MAX_FIELD_LEN by {
            if i > 0 {
                assert(es[i] == rest[i - 1]);
            }
        }
    }
}

proof fn lemma_pow16_8()
    ensures
        pow16(8) == MAX_FIELD_LEN + 1,
{
    reveal_with_fuel(pow16, 9);
}

proof fn lemma_pow16_mono(a: nat, b: nat)
    requires
        a <= b,
    ensures
        pow16(a) <= pow16(b),
    decreases b,
{
    if a < b {
        lemma_pow16_mono(a, (b - 1) as nat);
    }
}

/// A prefix that holds a non-digit makes every longer text fail too.
proof fn lemma_none_extends(p: Seq<char>, s: Seq<char>)
    requires
        field_value(p) is None,
        p.len() <= s.len(),
        s.take(p.len() as int) == p,
    ensures
        field_value(s) is None,
    decreases s.len(),
{
    if s.len() > p.len() {
        assert(s.drop_last().take(p.len() as int) =~= p);
        lemma_none_extends(p, s.drop_last());
    } else {
        assert(s =~= p);
    }
}

fn push_digit(out: &mut String, d: usize)
    requires
        d < 16,
    ensures
        final(out)@ == old(out)@.push(hex_alphabet()[d as int]),
{
    let digits = "0123456789abcdef";
    proof {
        reveal_strlit("0123456789abcdef");
        assert(digits@ =~= hex_alphabet());
    }
    let one = digits.substring_char(d, d + 1);
    assert(one@ =~= seq![hex_alphabet()[d as int]]);
    out.append(one);
}

fn push_hex_field(out: &mut String, n: usize, w: usize)
    ensures
        final(out)@ == old(out)@ + hex_field(n as nat, w as nat),
    decreases w,
{
    if w == 0 {
        assert(old(out)@ + hex_field(n as nat, 0) =~= old(out)@);
    } else {
        push_hex_field(out, n / 16, w - 1);
        push_digit(out, n % 16);
        assert(final(out)@ =~= old(out)@ + hex_field(n as nat, w as nat));
    }
}

} // verus!
