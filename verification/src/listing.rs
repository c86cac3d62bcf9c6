//! What the coordinator reads out of volume directory listings and request
//! query strings: directory-entry validation for rebuild, hex decoding, and
//! the `?list` / `?unlinked` query grammar.
use vstd::prelude::*;

use crate::record::has_prefix;

verus! {

/// One entry of a volume's directory listing.
#[derive(Clone, Debug)]
pub struct File {
    pub name: String,
    pub file_type: String,
    pub time: String,
}

/// A parsed directory listing.
pub struct FileWrapper(pub Vec<File>);

impl FileWrapper {
    /// An empty listing.
    pub fn new() -> (r: FileWrapper)
        ensures
            r.0@.len() == 0,
    {
        FileWrapper(Vec::new())
    }
}

/// Why a hex string was rejected.
#[derive(Clone, Copy, PartialEq, Eq, Structural, Debug)]
pub enum DecodeHexError {
    OddLength,
    ParseInt,
}

/// True of the sixteen hexadecimal digit characters, either case.
pub open spec fn is_hex_digit(c: char) -> bool {
    (48 <= c as int && c as int <= 57) || (97 <= c as int && c as int <= 102) || (65 <= c as int
        && c as int <= 70)
}

/// The value of one hexadecimal digit.
pub open spec fn hex_val(c: char) -> int {
    if 48 <= c as int && c as int <= 57 {
        c as int - 48
    } else if 97 <= c as int && c as int <= 102 {
        c as int - 87
    } else {
        c as int - 55
    }
}

/// The bytes an even-length hex string denotes, two digits per byte.
pub open spec fn hex_bytes(s: Seq<char>) -> Seq<u8>
    decreases s.len(),
{
    if s.len() < 2 {
        Seq::empty()
    } else {
        seq![(hex_val(s[0]) * 16 + hex_val(s[1])) as u8] + hex_bytes(s.skip(2))
    }
}

proof fn lemma_hex_bytes_snoc(s: Seq<char>, c1: char, c2: char)
    requires
        s.len() % 2 == 0,
    ensures
        hex_bytes(s.push(c1).push(c2)) == hex_bytes(s) + seq![
            (hex_val(c1) * 16 + hex_val(c2)) as u8,
        ],
    decreases s.len(),
{
    let w = s.push(c1).push(c2);
    if s.len() == 0 {
        assert(w.len() == 2);
        assert(w[0] == c1);
        assert(w[1] == c2);
        assert(w.skip(2) =~= Seq::<char>::empty());
        assert(hex_bytes(Seq::<char>::empty()) =~= Seq::<u8>::empty());
        assert(hex_bytes(w) =~= hex_bytes(s) + seq![(hex_val(c1) * 16 + hex_val(c2)) as u8]);
    } else {
        assert(w.skip(2) =~= s.skip(2).push(c1).push(c2));
        lemma_hex_bytes_snoc(s.skip(2), c1, c2);
        assert(w[0] == s[0]);
        assert(w[1] == s[1]);
        assert(hex_bytes(w) =~= hex_bytes(s) + seq![(hex_val(c1) * 16 + hex_val(c2)) as u8]);
    }
}

/// Decodes a hexadecimal string into bytes: an odd length is refused, as is
/// any character that is not a hex digit.
pub fn decode_hex(s: &str) -> (r: Result<Vec<u8>, DecodeHexError>)
    ensures
        s@.len() % 2 == 1 ==> r == Err::<Vec<u8>, DecodeHexError>(DecodeHexError::OddLength),
        s@.len() % 2 == 0 && (exists|i: int| 0 <= i < s@.len() && !is_hex_digit(s@[i])) ==> r
            == Err::<Vec<u8>, DecodeHexError>(DecodeHexError::ParseInt),
        s@.len() % 2 == 0 && (forall|i: int| 0 <= i < s@.len() ==> is_hex_digit(s@[i]))
            ==> (r matches Ok(v) && v@ == hex_bytes(s@)),
{
    let n = s.unicode_len();
    if n % 2 == 1 {
        return Err(DecodeHexError::OddLength);
    }
    let mut out: Vec<u8> = Vec::new();
    let mut i: usize = 0;
    while i < n
        invariant
            i <= n,
            i % 2 == 0,
            n % 2 == 0,
            n == s@.len(),
            forall|j: int| 0 <= j < i ==> is_hex_digit(s@[j]),
            out@ == hex_bytes(s@.take(i as int)),
        decreases n - i,
    {
        let c1 = s.get_char(i);
        let c2 = s.get_char(i + 1);
        let v1 = match hex_digit_value(c1) {
            Some(v) => v,
            None => {
                return Err(DecodeHexError::ParseInt);
            },
        };
        let v2 = match hex_digit_value(c2) {
            Some(v) => v,
            None => {
                return Err(DecodeHexError::ParseInt);
            },
        };
        out.push(v1 * 16 + v2);
        proof {
            assert(s@.take(i + 2) =~= s@.take(i as int).push(s@[i as int]).push(s@[i + 1]));
            lemma_hex_bytes_snoc(s@.take(i as int), s@[i as int], s@[i + 1]);
            assert(out@ =~= hex_bytes(s@.take(i + 2)));
        }
        i += 2;
    }
    proof {
        assert(s@.take(n as int) =~= s@);
    }
    Ok(out)
}

/// The value of one hex digit character, or nothing.
fn hex_digit_value(c: char) -> (r: Option<u8>)
    ensures
        r matches Some(v) ==> is_hex_digit(c) && v as int == hex_val(c) && v < 16,
        r is None ==> !is_hex_digit(c),
{
    let u = c as u32;
    if 48 <= u && u <= 57 {
        Some((u - 48) as u8)
    } else if 97 <= u && u <= 102 {
        Some((u - 87) as u8)
    } else if 65 <= u && u <= 70 {
        Some((u - 55) as u8)
    } else {
        None
    }
}

/// True of listing entries that rebuild descends into: a directory whose
/// two-character name is one hex-encoded byte.
pub open spec fn valid_dir_entry(f: File) -> bool {
    f.name@.len() == 2 && f.file_type@ == "directory"@ && is_hex_digit(f.name@[0])
        && is_hex_digit(f.name@[1])
}

/// Whether rebuild should walk this listing entry as a digest directory.
pub fn valid(f: &File) -> (r: bool)
    ensures
        r == valid_dir_entry(*f),
{
    if f.name.as_str().unicode_len() != 2 {
        return false;
    }
    if !crate::index::str_equal(f.file_type.as_str(), "directory") {
        return false;
    }
    let decoded = match decode_hex(f.name.as_str()) {
        Ok(d) => d,
        Err(_) => {
            return false;
        },
    };
    if decoded.len() != 1 {
        proof {
            assert(f.name@.skip(2).len() == 0);
            assert(hex_bytes(f.name@.skip(2)) =~= Seq::<u8>::empty());
            assert(hex_bytes(f.name@) =~= seq![
                (hex_val(f.name@[0]) * 16 + hex_val(f.name@[1])) as u8,
            ] + hex_bytes(f.name@.skip(2)));
        }
        return false;
    }
    true
}

/// True of listing entries that name a sub-volume: a directory called
/// `svNN` with two decimal digits, as the sub-volume layout writes them —
/// anything else is not a name this store produced.
pub open spec fn subvolume_entry(f: File) -> bool {
    &&& f.name@.len() == 4
    &&& has_prefix(f.name@, "sv"@)
    &&& 48 <= f.name@[2] as int <= 57
    &&& 48 <= f.name@[3] as int <= 57
    &&& f.file_type@ == "directory"@
}

/// Whether this listing entry names a sub-volume directory.
pub fn is_subvolume_dir(f: &File) -> (r: bool)
    ensures
        r == subvolume_entry(*f),
{
    proof {
        reveal_strlit("sv");
    }
    if f.name.as_str().unicode_len() != 4 {
        return false;
    }
    if !crate::record::str_has_prefix_at(f.name.as_str(), 0, "sv") {
        proof {
            assert(f.name@.subrange(0, 2) =~= f.name@.take(2));
        }
        return false;
    }
    proof {
        assert(f.name@.subrange(0, 2) =~= f.name@.take(2));
    }
    let d2 = f.name.as_str().get_char(2) as u32;
    let d3 = f.name.as_str().get_char(3) as u32;
    if d2 < 48 || d2 > 57 || d3 < 48 || d3 > 57 {
        return false;
    }
    crate::index::str_equal(f.file_type.as_str(), "directory")
}

/// A parsed request query string.
#[derive(PartialEq, Eq, Structural, Debug)]
pub enum Query {
    /// No query: an ordinary key request.
    Plain,
    /// A listing request: keys that are live, or (for `?unlinked`) soft
    /// deleted, with 0 meaning no limit.
    Listing { unlinked: bool, limit: usize },
    /// An unknown operation or a stray query key.
    BadOp,
    /// A limit that is not a plain number of at most seven digits.
    BadLimit,
}

/// The position of the first `&`, or the length if there is none.
pub open spec fn first_amp(s: Seq<char>) -> nat
    decreases s.len(),
{
    if s.len() == 0 {
        0
    } else if s[0] == '&' {
        0
    } else {
        1 + first_amp(s.drop_first())
    }
}

/// The `&`-separated tokens of a query string.
pub open spec fn query_tokens(s: Seq<char>) -> Seq<Seq<char>>
    decreases s.len(),
{
    let j = first_amp(s);
    if j >= s.len() {
        seq![s]
    } else {
        seq![s.take(j as int)] + query_tokens(s.skip(j as int + 1))
    }
}

proof fn lemma_first_amp_at(s: Seq<char>, j: int)
    requires
        0 <= j <= s.len(),
        forall|i: int| 0 <= i < j ==> s[i] != '&',
        j < s.len() ==> s[j] == '&',
    ensures
        first_amp(s) == j,
    decreases j,
{
    if j == 0 {
        if s.len() > 0 {
            assert(s[0] == '&');
        }
    } else {
        assert(s[0] != '&');
        assert(forall|i: int| 0 <= i < j - 1 ==> s.drop_first()[i] == s[i + 1]);
        lemma_first_amp_at(s.drop_first(), j - 1);
    }
}

/// Splits a query string on `&`.
fn split_query(s: &str) -> (r: Vec<String>)
    ensures
        r.deep_view() == query_tokens(s@),
        r@.len() >= 1,
{
    let n = s.unicode_len();
    let mut r: Vec<String> = Vec::new();
    proof {
        assert(s@.skip(0) =~= s@);
        assert(r.deep_view() =~= Seq::<Seq<char>>::empty());
        assert(r.deep_view() + query_tokens(s@) =~= query_tokens(s@));
    }
    let mut start: usize = 0;
    let mut i: usize = 0;
    while i < n
        invariant
            start <= i <= n,
            n == s@.len(),
            forall|j: int| start <= j < i ==> s@[j] != '&',
            r.deep_view() + query_tokens(s@.skip(start as int)) =~= query_tokens(s@),
        decreases n - i,
    {
        if s.get_char(i) == '&' {
            let ghost r_dv = r.deep_view();
            let seg = s.substring_char(start, i).to_owned();
            r.push(seg);
            proof {
                let tail = s@.skip(start as int);
                assert(forall|j: int| 0 <= j < i - start ==> tail[j] == s@[start + j]);
                lemma_first_amp_at(tail, i - start);
                assert(tail.take(i - start) =~= s@.subrange(start as int, i as int));
                assert(tail.skip(i - start + 1) =~= s@.skip(i + 1));
                assert(query_tokens(tail) == seq![s@.subrange(start as int, i as int)]
                    + query_tokens(s@.skip(i + 1)));
                assert(r.deep_view() =~= r_dv.push(seg@));
                assert(r.deep_view() + query_tokens(s@.skip(i + 1)) =~= query_tokens(s@));
            }
            start = i + 1;
        }
        i += 1;
    }
    let ghost r_dv = r.deep_view();
    let seg = s.substring_char(start, n).to_owned();
    r.push(seg);
    proof {
        let tail = s@.skip(start as int);
        assert(forall|j: int| 0 <= j < tail.len() ==> tail[j] == s@[start + j]);
        lemma_first_amp_at(tail, tail.len() as int);
        assert(query_tokens(tail) == seq![tail]);
        assert(tail =~= s@.subrange(start as int, n as int));
        assert(r.deep_view() =~= r_dv.push(seg@));
        assert(r.deep_view() =~= query_tokens(s@));
    }
    r
}

/// True of non-empty strings of decimal digits; what the listing limit
/// accepts.
pub open spec fn limit_digits(s: Seq<char>) -> bool {
    s.len() >= 1 && forall|i: int| 0 <= i < s.len() ==> 48 <= (#[trigger] s[i]) as int <= 57
}

/// The number a digit string denotes.
pub open spec fn digits_value(s: Seq<char>) -> int
    decreases s.len(),
{
    if s.len() == 0 {
        0
    } else {
        digits_value(s.drop_last()) * 10 + (s.last() as int - 48)
    }
}

proof fn lemma_digits_value_bound7(s: Seq<char>)
    requires
        forall|i: int| 0 <= i < s.len() ==> 48 <= (#[trigger] s[i]) as int <= 57,
        s.len() <= 7,
    ensures
        0 <= digits_value(s) < 10000000,
{
    lemma_digits_value_bound(s, 7);
    assert(pow10(0) == 1);
    assert(pow10(1) == 10);
    assert(pow10(2) == 100);
    assert(pow10(3) == 1000);
    assert(pow10(4) == 10000);
    assert(pow10(5) == 100000);
    assert(pow10(6) == 1000000);
    assert(pow10(7) == 10000000);
}

proof fn lemma_digits_value_bound(s: Seq<char>, bound: int)
    requires
        forall|i: int| 0 <= i < s.len() ==> 48 <= (#[trigger] s[i]) as int <= 57,
        s.len() <= bound,
        0 <= bound <= 7,
    ensures
        0 <= digits_value(s) < pow10(bound),
    decreases s.len(),
{
    if s.len() == 0 {
        assert(pow10(bound) >= 1) by {
            lemma_pow10_pos(bound);
        }
    } else {
        assert(forall|i: int| 0 <= i < s.drop_last().len() ==> s.drop_last()[i] == s[i]);
        lemma_digits_value_bound(s.drop_last(), bound - 1);
        assert(pow10(bound) == 10 * pow10(bound - 1));
    }
}

spec fn pow10(n: int) -> int
    decreases n,
{
    if n <= 0 {
        1
    } else {
        10 * pow10(n - 1)
    }
}

proof fn lemma_pow10_pos(n: int)
    ensures
        pow10(n) >= 1,
    decreases n,
{
    if n > 0 {
        lemma_pow10_pos(n - 1);
    }
}

/// What a query string asks for: nothing, a listing with its limit, or one
/// of the two rejections.
pub open spec fn parse_query_spec(q: Seq<char>) -> Query {
    if q.len() == 0 {
        Query::Plain
    } else {
        let toks = query_tokens(q);
        if !(toks[0] == "list"@ || toks[0] == "unlinked"@) {
            Query::BadOp
        } else if exists|i: int| 1 <= i < toks.len() && !has_prefix(#[trigger] toks[i], "limit="@) {
            Query::BadOp
        } else if toks.len() == 1 {
            Query::Listing { unlinked: toks[0] == "unlinked"@, limit: 0 }
        } else {
            let d = toks.last().skip(6);
            if limit_digits(d) {
                Query::Listing {
                    unlinked: toks[0] == "unlinked"@,
                    limit: if d.len() <= 7 {
                        digits_value(d) as usize
                    } else {
                        1000001
                    },
                }
            } else {
                Query::BadLimit
            }
        }
    }
}

/// Parses a request's query string: `list` or `unlinked`, optionally with
/// `&limit=N` clauses of which the last wins; anything else is refused.
pub fn parse_query(q: &str) -> (r: Query)
    ensures
        r == parse_query_spec(q@),
{
    if q.is_empty() {
        return Query::Plain;
    }
    let toks = split_query(q);
    let ghost tv = query_tokens(q@);
    proof {
        reveal_strlit("list");
        reveal_strlit("unlinked");
        reveal_strlit("limit=");
        assert(toks@.len() == tv.len());
    }
    let is_list = crate::index::str_equal(toks[0].as_str(), "list");
    let is_unlinked = crate::index::str_equal(toks[0].as_str(), "unlinked");
    if !is_list && !is_unlinked {
        return Query::BadOp;
    }
    let mut i: usize = 1;
    while i < toks.len()
        invariant
            1 <= i <= toks@.len(),
            q@.len() > 0,
            tv == query_tokens(q@),
            toks.deep_view() == tv,
            toks@.len() == tv.len(),
            forall|j: int| 1 <= j < i ==> has_prefix(#[trigger] tv[j], "limit="@),
        decreases toks@.len() - i,
    {
        proof {
            reveal_strlit("limit=");
        }
        if !crate::record::str_has_prefix_at(toks[i].as_str(), 0, "limit=") {
            proof {
                assert(tv[i as int] == toks@[i as int]@);
                if tv[i as int].len() >= 6 {
                    assert(tv[i as int].subrange(0, 6) =~= tv[i as int].take(6));
                }
            }
            return Query::BadOp;
        }
        proof {
            assert(tv[i as int] == toks@[i as int]@);
            assert(tv[i as int].subrange(0, 6) =~= tv[i as int].take(6));
        }
        i += 1;
    }
    if toks.len() == 1 {
        return Query::Listing { unlinked: is_unlinked, limit: 0 };
    }
    let last = &toks[toks.len() - 1];
    let last_len = last.as_str().unicode_len();
    proof {
        assert(tv.last() == toks@[toks@.len() - 1]@);
        assert(has_prefix(tv.last(), "limit="@));
    }
    let ghost d = tv.last().skip(6);
    proof {
        assert(d.len() == last_len - 6);
        assert(forall|m: int| 0 <= m < d.len() ==> d[m] == tv.last()[m + 6]);
    }
    if last_len == 6 {
        return Query::BadLimit;
    }
    let mut j: usize = 6;
    while j < last_len
        invariant
            6 <= j <= last_len,
            q@.len() > 0,
            tv == query_tokens(q@),
            tv.len() >= 2,
            tv[0] == "list"@ || tv[0] == "unlinked"@,
            is_unlinked == (tv[0] == "unlinked"@),
            forall|m: int| 1 <= m < tv.len() ==> has_prefix(#[trigger] tv[m], "limit="@),
            last_len == last@.len(),
            last@ == tv.last(),
            last_len >= 7,
            d == last@.skip(6),
            d.len() == last_len - 6,
            forall|m: int| 0 <= m < j - 6 ==> 48 <= (#[trigger] d[m]) as int <= 57,
        decreases last_len - j,
    {
        let c = last.as_str().get_char(j);
        let u = c as u32;
        if u < 48 || u > 57 {
            proof {
                assert(d[j - 6] == last@[j as int]);
                assert(!limit_digits(d));
            }
            return Query::BadLimit;
        }
        proof {
            assert(d[j - 6] == last@[j as int]);
        }
        j += 1;
    }
    proof {
        assert(limit_digits(d));
    }
    if last_len - 6 > 7 {
        // the scan refuses more than a million matching keys, so any limit
        // beyond seven digits behaves exactly like this one
        return Query::Listing { unlinked: is_unlinked, limit: 1000001 };
    }
    let mut value: u32 = 0;
    let mut j2: usize = 6;
    proof {
        assert(d.take(0) =~= Seq::<char>::empty());
        assert(digits_value(d.take(0)) == 0);
    }
    while j2 < last_len
        invariant
            6 <= j2 <= last_len,
            q@.len() > 0,
            tv == query_tokens(q@),
            tv.len() >= 2,
            tv[0] == "list"@ || tv[0] == "unlinked"@,
            is_unlinked == (tv[0] == "unlinked"@),
            forall|m: int| 1 <= m < tv.len() ==> has_prefix(#[trigger] tv[m], "limit="@),
            last_len == last@.len(),
            last@ == tv.last(),
            1 <= last_len - 6 <= 7,
            d == last@.skip(6),
            d.len() == last_len - 6,
            forall|m: int| 0 <= m < d.len() ==> 48 <= (#[trigger] d[m]) as int <= 57,
            value as int == digits_value(d.take(j2 - 6)),
            value < 10000000,
        decreases last_len - j2,
    {
        let c = last.as_str().get_char(j2);
        let u = c as u32;
        proof {
            assert(d[j2 - 6] == last@[j2 as int]);
            assert(48 <= u <= 57);
            assert(d.take(j2 - 6 + 1) =~= d.take(j2 - 6).push(d[j2 - 6]));
            assert(d.take(j2 - 6 + 1).drop_last() =~= d.take(j2 - 6));
            assert(d.take(j2 - 6 + 1).last() == d[j2 - 6]);
            assert(forall|m: int| 0 <= m < d.take(j2 - 6 + 1).len() ==> d.take(j2 - 6 + 1)[m]
                == d[m]);
            lemma_digits_value_bound7(d.take(j2 - 6 + 1));
        }
        value = value * 10 + (u - 48);
        j2 += 1;
    }
    proof {
        assert(d.take(d.len() as int) =~= d);
        assert(value as int == digits_value(d));
    }
    Query::Listing { unlinked: is_unlinked, limit: value as usize }
}

} // verus!
