//! The per-key metadata record and its codec: a record is stored in the
//! index as one opaque string, `["DELETED"] ["HASH" <32 hex>] <vol>,<vol>,...`,
//! and decoding is the inverse of encoding.
use vstd::prelude::*;

verus! {

/// The deletion state of a key. `Hard` is the in-memory "no such record"
/// sentinel and is never serialized.
#[derive(Clone, Copy, PartialEq, Eq, Structural, Debug)]
pub enum Deleted {
    No,
    Soft,
    Hard,
}

/// The per-key metadata: the replica volumes believed to hold the value,
/// the deletion state, and the 32-character lowercase hex MD5 of the value
/// (empty during an in-progress write).
#[derive(Debug)]
pub struct Record {
    pub rvolumes: Vec<String>,
    pub deleted: Deleted,
    pub hash: String,
}

/// The mathematical shadow of a `Record`.
#[verifier::ext_equal]
pub ghost struct RecordV {
    pub rvolumes: Seq<Seq<char>>,
    pub deleted: Deleted,
    pub hash: Seq<char>,
}

impl View for Record {
    type V = RecordV;

    open spec fn view(&self) -> RecordV {
        RecordV {
            rvolumes: self.rvolumes.deep_view(),
            deleted: self.deleted,
            hash: self.hash@,
        }
    }
}

/// The replica list serialized with comma separators.
pub open spec fn join_volumes(vs: Seq<Seq<char>>) -> Seq<char>
    decreases vs.len(),
{
    if vs.len() == 0 {
        Seq::empty()
    } else if vs.len() == 1 {
        vs[0]
    } else {
        vs[0] + seq![','] + join_volumes(vs.drop_first())
    }
}

/// The position of the first comma, or the length if there is none.
pub open spec fn first_comma(s: Seq<char>) -> nat
    decreases s.len(),
{
    if s.len() == 0 {
        0
    } else if s[0] == ',' {
        0
    } else {
        1 + first_comma(s.drop_first())
    }
}

/// The comma-separated segments of a string; the inverse of `join_volumes`
/// on clean volume names.
pub open spec fn split_volumes(s: Seq<char>) -> Seq<Seq<char>>
    decreases s.len(),
{
    let j = first_comma(s);
    if j >= s.len() {
        seq![s]
    } else {
        seq![s.take(j as int)] + split_volumes(s.skip(j as int + 1))
    }
}

/// True iff `p` is a prefix of `s`.
pub open spec fn has_prefix(s: Seq<char>, p: Seq<char>) -> bool {
    s.len() >= p.len() && s.take(p.len() as int) == p
}

/// The serialized form of a record: an optional `DELETED` marker, an
/// optional `HASH` marker followed by the 32 hash characters, then the
/// comma-separated replica list.
pub open spec fn encode_record(r: RecordV) -> Seq<char> {
    (if r.deleted is Soft {
        "DELETED"@
    } else {
        Seq::<char>::empty()
    }) + (if r.hash.len() == 32 {
        "HASH"@ + r.hash
    } else {
        Seq::<char>::empty()
    }) + join_volumes(r.rvolumes)
}

/// The record a serialized string denotes: strip an optional `DELETED`
/// marker, strip an optional `HASH` marker with its 32 hash characters,
/// split the rest on commas.
pub open spec fn decode_record(s: Seq<char>) -> RecordV {
    let deleted = if has_prefix(s, "DELETED"@) {
        Deleted::Soft
    } else {
        Deleted::No
    };
    let s1 = if has_prefix(s, "DELETED"@) {
        s.skip(7)
    } else {
        s
    };
    let hash = if has_prefix(s1, "HASH"@) && s1.len() >= 36 {
        s1.subrange(4, 36)
    } else {
        Seq::<char>::empty()
    };
    let s2 = if has_prefix(s1, "HASH"@) && s1.len() >= 36 {
        s1.skip(36)
    } else {
        s1
    };
    RecordV { rvolumes: split_volumes(s2), deleted, hash }
}

/// True of strings whose `HASH` marker, if present, is followed by the full
/// 32 hash characters; decoding demands it.
pub open spec fn decodable(s: Seq<char>) -> bool {
    let s1 = if has_prefix(s, "DELETED"@) {
        s.skip(7)
    } else {
        s
    };
    has_prefix(s1, "HASH"@) ==> s1.len() >= 36
}

/// True of volume names that the codec keeps intact wherever they stand in
/// a replica list: no comma, and no `HASH` or `DELETED` marker as a prefix.
pub open spec fn clean_volume(v: Seq<char>) -> bool {
    !v.contains(',') && !has_prefix(v, "HASH"@) && !has_prefix(v, "DELETED"@)
}

/// True of records the codec round-trips: a persistable deletion state, a
/// hash that is absent or full, at least one replica, comma-free replica
/// names, and a replica list that cannot be mistaken for a marker.
pub open spec fn encode_safe(r: RecordV) -> bool {
    &&& r.deleted != Deleted::Hard
    &&& (r.hash.len() == 0 || r.hash.len() == 32)
    &&& r.rvolumes.len() >= 1
    &&& (forall|i: int| 0 <= i < r.rvolumes.len() ==> !(#[trigger] r.rvolumes[i]).contains(','))
    &&& (r.hash.len() == 0 ==> !has_prefix(join_volumes(r.rvolumes), "HASH"@))
    &&& (r.deleted == Deleted::No && r.hash.len() == 0 ==> !has_prefix(
        join_volumes(r.rvolumes),
        "DELETED"@,
    ))
}

proof fn lemma_first_comma_at(s: Seq<char>, j: int)
    requires
        0 <= j <= s.len(),
        forall|i: int| 0 <= i < j ==> s[i] != ',',
        j < s.len() ==> s[j] == ',',
    ensures
        first_comma(s) == j,
    decreases j,
{
    if j == 0 {
        if s.len() > 0 {
            assert(s[0] == ',');
        }
    } else {
        assert(s[0] != ',');
        assert(forall|i: int| 0 <= i < j - 1 ==> s.drop_first()[i] == s[i + 1]);
        lemma_first_comma_at(s.drop_first(), j - 1);
    }
}

/// Splitting undoes joining, for a non-empty list of comma-free names.
proof fn lemma_split_join(vs: Seq<Seq<char>>)
    requires
        vs.len() >= 1,
        forall|i: int| 0 <= i < vs.len() ==> !(#[trigger] vs[i]).contains(','),
    ensures
        split_volumes(join_volumes(vs)) == vs,
    decreases vs.len(),
{
    let s = join_volumes(vs);
    if vs.len() == 1 {
        assert(s == vs[0]);
        assert(forall|i: int| 0 <= i < s.len() ==> s[i] != ',') by {
            assert(forall|i: int| 0 <= i < vs[0].len() ==> vs[0][i] != ',') by {
                assert(!vs[0].contains(','));
            }
        }
        lemma_first_comma_at(s, s.len() as int);
        assert(split_volumes(s) =~= seq![vs[0]]);
        assert(split_volumes(s) =~= vs);
    } else {
        let head = vs[0];
        let rest = join_volumes(vs.drop_first());
        assert(s == head + seq![','] + rest);
        assert(forall|i: int| 0 <= i < head.len() ==> s[i] == head[i]);
        assert(forall|i: int| 0 <= i < head.len() ==> s[i] != ',') by {
            assert(!head.contains(','));
        }
        assert(s[head.len() as int] == ',');
        lemma_first_comma_at(s, head.len() as int);
        assert(s.take(head.len() as int) =~= head);
        assert(s.skip(head.len() as int + 1) =~= rest);
        assert(forall|i: int| 0 <= i < vs.drop_first().len() ==> !(#[trigger] vs.drop_first()[
            i
        ]).contains(',')) by {
            assert(forall|i: int|
                0 <= i < vs.drop_first().len() ==> vs.drop_first()[i] == vs[i + 1]);
        }
        lemma_split_join(vs.drop_first());
        assert(split_volumes(s) =~= seq![head] + split_volumes(rest));
        assert(split_volumes(s) =~= vs);
    }
}


/// A comma-free volume list never begins with a marker that its first name
/// does not begin with: the comma after a short first name breaks any
/// comma-free marker.
proof fn lemma_join_prefix_free(vs: Seq<Seq<char>>, lit: Seq<char>)
    requires
        vs.len() >= 1,
        forall|i: int| 0 <= i < vs.len() ==> !(#[trigger] vs[i]).contains(','),
        !has_prefix(vs[0], lit),
        !lit.contains(','),
    ensures
        !has_prefix(join_volumes(vs), lit),
{
    let s = join_volumes(vs);
    if has_prefix(s, lit) {
        if vs.len() == 1 {
            assert(s == vs[0]);
            assert(false);
        } else {
            let head = vs[0];
            assert(s == head + seq![','] + join_volumes(vs.drop_first()));
            if head.len() >= lit.len() {
                assert(forall|i: int| 0 <= i < lit.len() ==> s[i] == head[i]);
                assert(head.take(lit.len() as int) =~= s.take(lit.len() as int));
                assert(has_prefix(head, lit));
                assert(false);
            } else {
                assert(s[head.len() as int] == ',');
                assert(s.take(lit.len() as int)[head.len() as int] == lit[head.len() as int]);
                assert(lit[head.len() as int] == ',');
                assert(lit.contains(','));
                assert(false);
            }
        }
    }
}

/// A record whose names are all clean is one the codec round-trips.
pub proof fn lemma_clean_record_encode_safe(r: RecordV)
    requires
        r.deleted != Deleted::Hard,
        r.hash.len() == 0 || r.hash.len() == 32,
        r.rvolumes.len() >= 1,
        forall|i: int| 0 <= i < r.rvolumes.len() ==> clean_volume(#[trigger] r.rvolumes[i]),
    ensures
        encode_safe(r),
{
    reveal_strlit("HASH");
    reveal_strlit("DELETED");
    assert(!"HASH"@.contains(',')) by {
        if "HASH"@.contains(',') {
            let i = choose|i: int| 0 <= i < "HASH"@.len() && "HASH"@[i] == ',';
            assert(false);
        }
    }
    assert(!"DELETED"@.contains(',')) by {
        if "DELETED"@.contains(',') {
            let i = choose|i: int| 0 <= i < "DELETED"@.len() && "DELETED"@[i] == ',';
            assert(false);
        }
    }
    assert(clean_volume(r.rvolumes[0]));
    lemma_join_prefix_free(r.rvolumes, "HASH"@);
    lemma_join_prefix_free(r.rvolumes, "DELETED"@);
}

/// Law: decoding an encoded record yields the record back. The inputs left
/// out are exactly those the textual format cannot carry: a `Hard` record
/// (never serialized), a partial hash, an empty replica list (its encoding
/// equals that of one empty name), a comma inside a name, and a replica
/// list whose own first characters spell a `HASH` or `DELETED` marker.
pub proof fn lemma_record_round_trip(r: RecordV)
    requires
        encode_safe(r),
    ensures
        decode_record(encode_record(r)) == r,
        decodable(encode_record(r)),
{
    reveal_strlit("DELETED");
    reveal_strlit("HASH");
    let s = encode_record(r);
    let joined = join_volumes(r.rvolumes);
    let hash_part = if r.hash.len() == 32 {
        "HASH"@ + r.hash
    } else {
        Seq::<char>::empty()
    };
    assert("DELETED"@.len() == 7);
    assert("HASH"@.len() == 4);
    assert("DELETED"@[0] == 'D');
    assert("HASH"@[0] == 'H');
    if r.deleted is Soft {
        assert(s =~= "DELETED"@ + (hash_part + joined));
        assert(has_prefix(s, "DELETED"@)) by {
            assert(s.take(7) =~= "DELETED"@);
        }
        assert(s.skip(7) =~= hash_part + joined);
    } else {
        assert(s =~= hash_part + joined);
        assert(!has_prefix(s, "DELETED"@)) by {
            if s.len() >= 7 {
                if r.hash.len() == 32 {
                    assert(s[0] == 'H');
                    assert(s.take(7)[0] == 'H');
                } else {
                    assert(s =~= joined);
                    assert(!has_prefix(joined, "DELETED"@));
                }
            }
        }
    }
    let s1 = if has_prefix(s, "DELETED"@) {
        s.skip(7)
    } else {
        s
    };
    assert(s1 =~= hash_part + joined);
    if r.hash.len() == 32 {
        assert(s1 =~= "HASH"@ + r.hash + joined);
        assert(has_prefix(s1, "HASH"@)) by {
            assert(s1.take(4) =~= "HASH"@);
        }
        assert(s1.len() >= 36);
        assert(s1.subrange(4, 36) =~= r.hash);
        assert(s1.skip(36) =~= joined);
    } else {
        assert(s1 =~= joined);
        assert(!has_prefix(s1, "HASH"@));
    }
    lemma_split_join(r.rvolumes);
    assert(decode_record(s) =~= r);
}

impl Record {
    /// A fresh in-memory record: the "no such record" sentinel.
    pub fn new() -> (r: Record)
        ensures
            r@ == (RecordV {
                rvolumes: Seq::<Seq<char>>::empty(),
                deleted: Deleted::Hard,
                hash: Seq::<char>::empty(),
            }),
    {
        let r = Record { rvolumes: Vec::new(), deleted: Deleted::Hard, hash: String::new() };
        proof {
            assert(r.rvolumes.deep_view() =~= Seq::<Seq<char>>::empty());
        }
        r
    }

    /// Serializes the record for the index. A `Hard` record is never
    /// serialized; the caller removes the key instead.
    pub fn encode(&self) -> (r: String)
        requires
            self@.deleted != Deleted::Hard,
        ensures
            r@ == encode_record(self@),
    {
        let mut out = String::new();
        if matches!(self.deleted, Deleted::Soft) {
            out.append("DELETED");
        }
        let hash_len = self.hash.as_str().unicode_len();
        if hash_len == 32 {
            out.append("HASH");
            out.append(self.hash.as_str());
        }
        let mut i: usize = 0;
        let ghost prefix = out@;
        while i < self.rvolumes.len()
            invariant
                i <= self.rvolumes@.len(),
                self.rvolumes.deep_view().len() == self.rvolumes@.len(),
                out@ == prefix + join_volumes(self.rvolumes.deep_view().take(i as int)),
            decreases self.rvolumes@.len() - i,
        {
            if i > 0 {
                out.append(",");
            }
            out.append(self.rvolumes[i].as_str());
            proof {
                reveal_strlit(",");
                assert(","@ =~= seq![',']);
                let vs = self.rvolumes.deep_view();
                assert(vs.take(i + 1) =~= vs.take(i as int).push(vs[i as int]));
                lemma_join_snoc(vs.take(i as int), vs[i as int]);
                assert(out@ =~= prefix + join_volumes(vs.take(i + 1)));
            }
            i += 1;
        }
        proof {
            let vs = self.rvolumes.deep_view();
            assert(vs.take(vs.len() as int) =~= vs);
            assert(out@ =~= encode_record(self@));
        }
        out
    }

    /// Deserializes an index value. The input must carry a full hash after
    /// any `HASH` marker, which every encoded record does.
    pub fn decode(s: &str) -> (r: Record)
        requires
            decodable(s@),
        ensures
            r@ == decode_record(s@),
    {
        let n = s.unicode_len();
        let mut deleted = Deleted::No;
        let mut pos: usize = 0;
        if str_has_prefix_at(s, 0, "DELETED") {
            deleted = Deleted::Soft;
            pos = 7;
            proof {
                reveal_strlit("DELETED");
                assert(s@.skip(7) =~= s@.subrange(7, s@.len() as int));
            }
        }
        proof {
            reveal_strlit("DELETED");
            assert(s@.take(7) =~= s@.subrange(0, 7));
        }
        let mut hash = String::new();
        let ghost s1 = if has_prefix(s@, "DELETED"@) {
            s@.skip(7)
        } else {
            s@
        };
        proof {
            assert(s1 =~= s@.subrange(pos as int, s@.len() as int));
        }
        if str_has_prefix_at(s, pos, "HASH") {
            proof {
                reveal_strlit("HASH");
                assert(s1.take(4) =~= s@.subrange(pos as int, pos + 4));
                assert(has_prefix(s1, "HASH"@));
            }
            hash = s.substring_char(pos + 4, pos + 36).to_owned();
            proof {
                assert(s1.subrange(4, 36) =~= s@.subrange(pos + 4, pos + 36));
            }
            pos = pos + 36;
        } else {
            proof {
                reveal_strlit("HASH");
                if s1.len() >= 4 {
                    assert(s1.take(4) =~= s@.subrange(pos as int, pos + 4));
                }
                assert(!has_prefix(s1, "HASH"@));
            }
        }
        let rest = s.substring_char(pos, n);
        let rvolumes = split_string(rest);
        let r = Record { rvolumes, deleted, hash };
        proof {
            let s2 = if has_prefix(s1, "HASH"@) && s1.len() >= 36 {
                s1.skip(36)
            } else {
                s1
            };
            assert(rest@ =~= s2);
            assert(r@ =~= decode_record(s@));
        }
        r
    }
}

proof fn lemma_join_snoc(vs: Seq<Seq<char>>, v: Seq<char>)
    ensures
        join_volumes(vs.push(v)) == if vs.len() == 0 {
            v
        } else {
            join_volumes(vs) + seq![','] + v
        },
    decreases vs.len(),
{
    let w = vs.push(v);
    if vs.len() == 0 {
        assert(w.len() == 1);
        assert(join_volumes(w) == w[0]);
        assert(w[0] == v);
    } else if vs.len() == 1 {
        assert(w.len() == 2);
        assert(w[0] == vs[0]);
        assert(w.drop_first() =~= seq![v]);
        assert(join_volumes(w.drop_first()) == seq![v][0]);
        assert(join_volumes(w) == w[0] + seq![','] + join_volumes(w.drop_first()));
        assert(join_volumes(vs) == vs[0]);
    } else {
        assert(w.drop_first() =~= vs.drop_first().push(v));
        lemma_join_snoc(vs.drop_first(), v);
        assert(join_volumes(w) =~= join_volumes(vs) + seq![','] + v);
    }
}

/// True iff `p` occurs in `s` starting at `pos`, checked character by
/// character.
pub(crate) fn str_has_prefix_at(s: &str, pos: usize, p: &str) -> (r: bool)
    requires
        pos <= s@.len(),
    ensures
        r == (s@.len() - pos >= p@.len() && s@.subrange(pos as int, pos + p@.len()) == p@),
{
    let n = s.unicode_len();
    let m = p.unicode_len();
    if n - pos < m {
        return false;
    }
    let mut i: usize = 0;
    while i < m
        invariant
            i <= m,
            m == p@.len(),
            n == s@.len(),
            pos + m <= n,
            forall|j: int| 0 <= j < i ==> s@[pos + j] == p@[j],
        decreases m - i,
    {
        if s.get_char(pos + i) != p.get_char(i) {
            proof {
                assert(s@.subrange(pos as int, pos + p@.len())[i as int] != p@[i as int]);
            }
            return false;
        }
        i += 1;
    }
    proof {
        assert(s@.subrange(pos as int, pos + p@.len()) =~= p@);
    }
    true
}

/// Splits a string on commas; the segments, in order, with separators
/// dropped.
fn split_string(s: &str) -> (r: Vec<String>)
    ensures
        r.deep_view() == split_volumes(s@),
{
    let n = s.unicode_len();
    let mut r: Vec<String> = Vec::new();
    proof {
        assert(s@.skip(0) =~= s@);
        assert(r.deep_view() =~= Seq::<Seq<char>>::empty());
        assert(r.deep_view() + split_volumes(s@) =~= split_volumes(s@));
    }
    let mut start: usize = 0;
    let mut i: usize = 0;
    while i < n
        invariant
            start <= i <= n,
            n == s@.len(),
            forall|j: int| start <= j < i ==> s@[j] != ',',
            r.deep_view() + split_volumes(s@.skip(start as int)) =~= split_volumes(s@),
        decreases n - i,
    {
        if s.get_char(i) == ',' {
            let ghost r_dv = r.deep_view();
            let seg = s.substring_char(start, i).to_owned();
            r.push(seg);
            proof {
                let tail = s@.skip(start as int);
                assert(forall|j: int| 0 <= j < i - start ==> tail[j] == s@[start + j]);
                lemma_first_comma_at(tail, i - start);
                assert(tail.take(i - start) =~= s@.subrange(start as int, i as int));
                assert(tail.skip(i - start + 1) =~= s@.skip(i + 1));
                assert(split_volumes(tail) == seq![s@.subrange(start as int, i as int)]
                    + split_volumes(s@.skip(i + 1)));
                assert(r.deep_view() =~= r_dv.push(seg@));
                assert(r.deep_view() + split_volumes(s@.skip(i + 1)) =~= split_volumes(s@));
            }
            start = i + 1;
        }
        i += 1;
    }
    let ghost r_dv = r.deep_view();
    let seg = s.substring_char(start, n).to_owned();
    r.push(seg);
    proof {
        let tail = s@.skip(start as int);
        assert(forall|j: int| 0 <= j < tail.len() ==> tail[j] == s@[start + j]);
        lemma_first_comma_at(tail, tail.len() as int);
        assert(split_volumes(tail) == seq![tail]);
        assert(tail =~= s@.subrange(start as int, n as int));
        assert(r.deep_view() =~= r_dv.push(seg@));
        assert(r.deep_view() =~= split_volumes(s@));
    }
    r
}

} // verus!
