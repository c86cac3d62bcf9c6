//! Content digests and their textual forms: the MD5 digest and base64 name
//! of a key (computed by outside crates behind trusted wrappers), and the
//! verified decimal and hexadecimal renderings used to build storage paths
//! and record hashes.
use vstd::prelude::*;
use base64::Engine;

verus! {

/// The 16-byte MD5 digest of a byte string; computed only by `md5_digest`.
pub uninterp spec fn md5_of(bytes: Seq<u8>) -> Seq<u8>;

/// The standard-alphabet, padded base64 rendering of a byte string; computed
/// only by `b64_encode`.
pub uninterp spec fn b64_of(bytes: Seq<u8>) -> Seq<char>;

/// The byte string that standard base64 decoding yields; computed only by
/// `b64_decode`.
pub uninterp spec fn b64_bytes_of(s: Seq<char>) -> Seq<u8>;

/// Whether standard base64 decoding of a string succeeds; decided only by
/// `b64_decode`, a function of the characters alone.
pub uninterp spec fn b64_valid(s: Seq<char>) -> bool;

/// Relies on md5::compute: the result is the 16-byte MD5 digest of the input,
/// a function of the input bytes alone.
#[verifier::external_body]
pub(crate) fn md5_digest(data: &[u8]) -> (r: Vec<u8>)
    ensures
        r@ == md5_of(data@),
        r@.len() == 16,
{
    md5::compute(data).0.to_vec()
}

/// Relies on base64's STANDARD engine `encode`: standard alphabet with
/// padding, a function of the input bytes alone; the encoded form has length
/// 4 * ceil(len / 3), and decoding it succeeds (the engine accepts the
/// canonical padding it wrote) and yields the input bytes back.
#[verifier::external_body]
pub(crate) fn b64_encode(data: &[u8]) -> (r: String)
    ensures
        r@ == b64_of(data@),
        r@.len() == 4 * ((data@.len() + 2) / 3),
        b64_valid(r@),
        b64_bytes_of(r@) == data@,
{
    base64::engine::general_purpose::STANDARD.encode(data)
}

/// Relies on base64's STANDARD engine `decode`: whether it succeeds, and
/// what it yields, are functions of the input characters alone.
#[verifier::external_body]
pub(crate) fn b64_decode(s: &str) -> (r: Option<Vec<u8>>)
    ensures
        (r is Some) == b64_valid(s@),
        r matches Some(v) ==> v@ == b64_bytes_of(s@),
{
    base64::engine::general_purpose::STANDARD.decode(s).ok()
}

/// The decimal digit for a value in 0..10.
pub open spec fn dec_digit(d: int) -> char {
    if d == 0 { '0' }
    else if d == 1 { '1' }
    else if d == 2 { '2' }
    else if d == 3 { '3' }
    else if d == 4 { '4' }
    else if d == 5 { '5' }
    else if d == 6 { '6' }
    else if d == 7 { '7' }
    else if d == 8 { '8' }
    else { '9' }
}

/// The decimal rendering of a non-negative integer, without padding.
pub open spec fn dec_chars(n: int) -> Seq<char>
    decreases n,
{
    if n < 0 {
        Seq::empty()
    } else if n < 10 {
        seq![dec_digit(n)]
    } else {
        dec_chars(n / 10).push(dec_digit(n % 10))
    }
}

/// The hexadecimal digit for a value in 0..16, lowercase.
pub open spec fn hex_digit(d: int) -> char {
    if d == 0 { '0' }
    else if d == 1 { '1' }
    else if d == 2 { '2' }
    else if d == 3 { '3' }
    else if d == 4 { '4' }
    else if d == 5 { '5' }
    else if d == 6 { '6' }
    else if d == 7 { '7' }
    else if d == 8 { '8' }
    else if d == 9 { '9' }
    else if d == 10 { 'a' }
    else if d == 11 { 'b' }
    else if d == 12 { 'c' }
    else if d == 13 { 'd' }
    else if d == 14 { 'e' }
    else { 'f' }
}

/// The lowercase hexadecimal rendering of a byte string, two digits per byte.
pub open spec fn hex_chars(bytes: Seq<u8>) -> Seq<char>
    decreases bytes.len(),
{
    if bytes.len() == 0 {
        Seq::empty()
    } else {
        seq![hex_digit(bytes[0] as int / 16), hex_digit(bytes[0] as int % 16)] + hex_chars(bytes.drop_first())
    }
}

pub proof fn lemma_hex_chars_len(bytes: Seq<u8>)
    ensures
        hex_chars(bytes).len() == 2 * bytes.len(),
    decreases bytes.len(),
{
    if bytes.len() > 0 {
        lemma_hex_chars_len(bytes.drop_first());
    }
}

proof fn lemma_hex_chars_snoc(bytes: Seq<u8>, b: u8)
    ensures
        hex_chars(bytes.push(b)) == hex_chars(bytes) + seq![
            hex_digit(b as int / 16),
            hex_digit(b as int % 16),
        ],
    decreases bytes.len(),
{
    if bytes.len() == 0 {
        let s = bytes.push(b);
        assert(s.len() == 1);
        assert(s[0] == b);
        assert(s.drop_first() =~= Seq::<u8>::empty());
        assert(hex_chars(s.drop_first()) == Seq::<char>::empty());
        assert(hex_chars(s) == seq![hex_digit(b as int / 16), hex_digit(b as int % 16)]
            + hex_chars(s.drop_first()));
        assert(hex_chars(bytes.push(b)) =~= hex_chars(bytes) + seq![
            hex_digit(b as int / 16),
            hex_digit(b as int % 16),
        ]);
    } else {
        assert(bytes.push(b).drop_first() =~= bytes.drop_first().push(b));
        lemma_hex_chars_snoc(bytes.drop_first(), b);
        assert(hex_chars(bytes.push(b)) =~= hex_chars(bytes) + seq![
            hex_digit(b as int / 16),
            hex_digit(b as int % 16),
        ]);
    }
}

/// The decimal-digit string for a value in 0..10.
pub(crate) fn digit_str(d: u32) -> (r: &'static str)
    requires
        d < 10,
    ensures
        r@ == seq![dec_digit(d as int)],
{
    proof {
        reveal_strlit("0");
        reveal_strlit("1");
        reveal_strlit("2");
        reveal_strlit("3");
        reveal_strlit("4");
        reveal_strlit("5");
        reveal_strlit("6");
        reveal_strlit("7");
        reveal_strlit("8");
        reveal_strlit("9");
    }
    let r = match d {
        0 => "0",
        1 => "1",
        2 => "2",
        3 => "3",
        4 => "4",
        5 => "5",
        6 => "6",
        7 => "7",
        8 => "8",
        _ => "9",
    };
    proof {
        assert(r@ =~= seq![dec_digit(d as int)]);
    }
    r
}

/// The hexadecimal-digit string for a value in 0..16.
fn hex_digit_str(d: u8) -> (r: &'static str)
    requires
        d < 16,
    ensures
        r@ == seq![hex_digit(d as int)],
{
    proof {
        reveal_strlit("0");
        reveal_strlit("1");
        reveal_strlit("2");
        reveal_strlit("3");
        reveal_strlit("4");
        reveal_strlit("5");
        reveal_strlit("6");
        reveal_strlit("7");
        reveal_strlit("8");
        reveal_strlit("9");
        reveal_strlit("a");
        reveal_strlit("b");
        reveal_strlit("c");
        reveal_strlit("d");
        reveal_strlit("e");
        reveal_strlit("f");
    }
    let r = match d {
        0 => "0",
        1 => "1",
        2 => "2",
        3 => "3",
        4 => "4",
        5 => "5",
        6 => "6",
        7 => "7",
        8 => "8",
        9 => "9",
        10 => "a",
        11 => "b",
        12 => "c",
        13 => "d",
        14 => "e",
        _ => "f",
    };
    proof {
        assert(r@ =~= seq![hex_digit(d as int)]);
    }
    r
}

/// Renders a non-negative integer in decimal.
pub fn dec_string(n: u32) -> (r: String)
    ensures
        r@ == dec_chars(n as int),
    decreases n,
{
    if n < 10 {
        let r = digit_str(n).to_owned();
        proof {
            assert(r@ =~= dec_chars(n as int));
        }
        r
    } else {
        let mut r = dec_string(n / 10);
        r.append(digit_str(n % 10));
        proof {
            assert(r@ =~= dec_chars(n as int));
        }
        r
    }
}

/// Renders a byte string in lowercase hexadecimal, two digits per byte.
pub fn hex_string(bytes: &Vec<u8>) -> (r: String)
    ensures
        r@ == hex_chars(bytes@),
{
    let mut r = String::new();
    let mut i: usize = 0;
    while i < bytes.len()
        invariant
            i <= bytes@.len(),
            r@ == hex_chars(bytes@.take(i as int)),
        decreases bytes@.len() - i,
    {
        let b = bytes[i];
        r.append(hex_digit_str(b / 16));
        r.append(hex_digit_str(b % 16));
        proof {
            assert(bytes@.take(i as int).push(bytes@[i as int]) =~= bytes@.take(i + 1));
            lemma_hex_chars_snoc(bytes@.take(i as int), bytes@[i as int]);
            assert(r@ =~= hex_chars(bytes@.take(i + 1)));
        }
        i += 1;
    }
    proof {
        assert(bytes@.take(bytes@.len() as int) =~= bytes@);
    }
    r
}

} // verus!
