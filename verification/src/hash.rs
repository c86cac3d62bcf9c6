//! Placement: the storage path of a key on every volume, and the rendezvous
//! ("highest-random-weight") choice of the volumes a key should live on.
use vstd::prelude::*;

use crate::digest::{
    b64_bytes_of, b64_of, dec_chars, dec_digit, dec_string, digit_str, md5_digest, md5_of,
    b64_encode,
};
use vstd::utf8::encode_utf8;
use vstd::string::StringSliceAdditionalSpecFns;

verus! {

/// The path a key's bytes are stored under on every volume: the first two
/// digest bytes in decimal, then the base64 name of the whole digest.
pub open spec fn path_of(d: Seq<u8>) -> Seq<char> {
    seq!['/'] + dec_chars(d[0] as int) + seq!['/'] + dec_chars(d[1] as int) + seq!['/'] + b64_of(d)
}

/// The digest a storage path names, recovered from its trailing 24
/// characters (the base64 rendering of a 16-byte digest is always 24
/// characters long).
pub open spec fn path_digest(p: Seq<char>) -> Seq<u8> {
    b64_bytes_of(p.skip(p.len() - 24))
}

/// Maps a key to its storage path, `/<digest[0]>/<digest[1]>/<base64(digest)>`.
pub fn key_to_path(key: &str) -> (r: String)
    ensures
        r@ == path_of(md5_of(key.spec_bytes())),
        path_digest(r@) == md5_of(key.spec_bytes()),
{
    let kb = key.as_bytes();
    let digest = md5_digest(kb);
    let enc = b64_encode(digest.as_slice());
    let d0 = dec_string(digest[0] as u32);
    let d1 = dec_string(digest[1] as u32);
    let mut r = String::from_str("/");
    r.append(d0.as_str());
    r.append("/");
    r.append(d1.as_str());
    r.append("/");
    r.append(enc.as_str());
    proof {
        reveal_strlit("/");
        assert("/"@ =~= seq!['/']);
        let d = md5_of(key.spec_bytes());
        assert(r@ =~= path_of(d));
        assert(r@.skip(r@.len() - 24) =~= enc@);
    }
    r
}

/// Law: storage paths are collision-resistant — two paths that name
/// different digests are different paths; and `path_of` is a function, so
/// one key always maps to one path.
pub proof fn lemma_path_collision_resistant(p1: Seq<char>, p2: Seq<char>)
    requires
        path_digest(p1) != path_digest(p2),
    ensures
        p1 != p2,
{
}

/// Strict lexicographic byte order on digests.
pub open spec fn bytes_lt(a: Seq<u8>, b: Seq<u8>) -> bool
    decreases a.len(),
{
    if b.len() == 0 {
        false
    } else if a.len() == 0 {
        true
    } else if a[0] != b[0] {
        a[0] < b[0]
    } else {
        bytes_lt(a.drop_first(), b.drop_first())
    }
}

/// Strict rendezvous rank: ascending digest, the candidate's position in the
/// volume list breaking ties, so that the order is total.
pub open spec fn rank_lt(a: (Seq<u8>, int), b: (Seq<u8>, int)) -> bool {
    bytes_lt(a.0, b.0) || (a.0 == b.0 && a.1 < b.1)
}

/// Inserts a ranked candidate into a rank-sorted sequence, after any
/// candidate it does not rank strictly below.
pub open spec fn insert_ranked(e: (Seq<u8>, int), s: Seq<(Seq<u8>, int)>) -> Seq<(Seq<u8>, int)>
    decreases s.len(),
{
    if s.len() == 0 {
        seq![e]
    } else if rank_lt(e, s[0]) {
        seq![e] + s
    } else {
        seq![s[0]] + insert_ranked(e, s.drop_first())
    }
}

/// The digest that ranks volume `vol` as a host for `key`: MD5 of the key's
/// bytes followed by the volume's bytes.
pub open spec fn vol_digest(key: Seq<char>, vol: Seq<char>) -> Seq<u8> {
    md5_of(encode_utf8(key) + encode_utf8(vol))
}

/// The first `i` candidate volumes, sorted by ascending rendezvous rank.
pub open spec fn rendezvous_order(key: Seq<char>, vols: Seq<Seq<char>>, i: int) -> Seq<(
    Seq<u8>,
    int,
)>
    decreases i,
{
    if i <= 0 {
        Seq::empty()
    } else {
        insert_ranked(
            (vol_digest(key, vols[i - 1]), i - 1),
            rendezvous_order(key, vols, i - 1),
        )
    }
}

/// The sub-volume hash: the big-endian 32-bit integer formed from digest
/// bytes 12 through 15.
pub open spec fn sv_hash(d: Seq<u8>) -> int {
    (d[12] as int) * 0x1000000 + (d[13] as int) * 0x10000 + (d[14] as int) * 0x100 + (d[15] as int)
}

/// The sub-volume label: two digits for values below ten, plain decimal
/// otherwise.
pub open spec fn sv_label(k: int) -> Seq<char> {
    if k < 10 {
        seq!['0', dec_digit(k)]
    } else {
        dec_chars(k)
    }
}

/// The suffix appended to a selected volume when sub-volumes are in use.
pub open spec fn sv_suffix(d: Seq<u8>, s: int) -> Seq<char> {
    if s <= 1 {
        Seq::empty()
    } else {
        seq!['/', 's', 'v'] + sv_label(sv_hash(d) % s)
    }
}

/// The target placement of a key: the first `n` volumes by ascending
/// rendezvous rank, each carrying its sub-volume suffix.
pub open spec fn placement(key: Seq<char>, vols: Seq<Seq<char>>, n: int, s: int) -> Seq<
    Seq<char>,
> {
    let order = rendezvous_order(key, vols, vols.len() as int);
    Seq::new(n as nat, |m: int| vols[order[m].1] + sv_suffix(order[m].0, s))
}

/// Says that `out` is drawn from the configured volumes at the positions
/// `ps`: entry `m` is the volume at `ps[m]` with its sub-volume suffix for
/// `key`, and no position is used twice — so a volume can repeat in a
/// placement only if the configuration itself lists the same name twice.
pub open spec fn placement_positions(
    vols: Seq<Seq<char>>,
    key: Seq<char>,
    s: int,
    out: Seq<Seq<char>>,
    ps: Seq<int>,
) -> bool {
    &&& ps.len() == out.len()
    &&& (forall|m: int|
        0 <= m < ps.len() ==> 0 <= #[trigger] ps[m] < vols.len() && out[m] == vols[ps[m]]
            + sv_suffix(vol_digest(key, vols[ps[m]]), s))
    &&& (forall|m1: int, m2: int|
        #![trigger ps[m1], ps[m2]]
        0 <= m1 < m2 < ps.len() ==> ps[m1] != ps[m2])
}

/// Says that every entry of `out` is one of the configured volumes with its
/// sub-volume suffix for `key`, each from a distinct position of the
/// configured list; the coordinator uses it to carry name hygiene from the
/// configuration to every stored replica list.
pub open spec fn placement_from(vols: Seq<Seq<char>>, key: Seq<char>, s: int, out: Seq<Seq<char>>) -> bool {
    exists|ps: Seq<int>| #[trigger] placement_positions(vols, key, s, out, ps)
}

/// Law: the placement of a key is a list of exactly `n` volumes, and, being
/// a function of its arguments, the same key always maps to the same list.
pub proof fn lemma_placement_len(key: Seq<char>, vols: Seq<Seq<char>>, n: int, s: int)
    requires
        0 <= n,
    ensures
        placement(key, vols, n, s).len() == n,
{
}

/// Where `insert_ranked` puts a candidate: after every entry it does not
/// rank strictly below.
pub open spec fn insert_rank_position(e: (Seq<u8>, int), s: Seq<(Seq<u8>, int)>) -> int
    decreases s.len(),
{
    if s.len() == 0 {
        0
    } else if rank_lt(e, s[0]) {
        0
    } else {
        1 + insert_rank_position(e, s.drop_first())
    }
}

/// Inserting into a ranked sequence splits it at the insert position.
proof fn lemma_insert_ranked_split(e: (Seq<u8>, int), s: Seq<(Seq<u8>, int)>)
    ensures
        0 <= insert_rank_position(e, s) <= s.len(),
        insert_ranked(e, s) == s.take(insert_rank_position(e, s)) + seq![e] + s.skip(
            insert_rank_position(e, s),
        ),
    decreases s.len(),
{
    let p = insert_rank_position(e, s);
    if s.len() == 0 {
        assert(insert_ranked(e, s) =~= s.take(0) + seq![e] + s.skip(0));
    } else if rank_lt(e, s[0]) {
        assert(insert_ranked(e, s) =~= s.take(0) + seq![e] + s.skip(0));
    } else {
        lemma_insert_ranked_split(e, s.drop_first());
        let q = insert_rank_position(e, s.drop_first());
        assert(s.drop_first().take(q) =~= s.skip(1).take(q));
        assert(insert_ranked(e, s) == seq![s[0]] + (s.drop_first().take(q) + seq![e]
            + s.drop_first().skip(q)));
        assert(insert_ranked(e, s) =~= s.take(q + 1) + seq![e] + s.skip(q + 1));
    }
}

/// Every entry of the ranking names one of the first `i` candidates.
proof fn lemma_rendezvous_positions(key: Seq<char>, vols: Seq<Seq<char>>, i: int)
    requires
        0 <= i,
    ensures
        rendezvous_order(key, vols, i).len() == i,
        forall|q: int|
            0 <= q < i ==> 0 <= (#[trigger] rendezvous_order(key, vols, i)[q]).1 < i,
    decreases i,
{
    if i > 0 {
        lemma_rendezvous_positions(key, vols, i - 1);
        let prev = rendezvous_order(key, vols, i - 1);
        let e = (vol_digest(key, vols[i - 1]), i - 1);
        lemma_insert_ranked_split(e, prev);
        let p = insert_rank_position(e, prev);
        let cur = rendezvous_order(key, vols, i);
        assert(cur == prev.take(p) + seq![e] + prev.skip(p));
        assert forall|q: int| 0 <= q < i implies 0 <= (#[trigger] cur[q]).1 < i by {
            if q < p {
                assert(cur[q] == prev[q]);
            } else if q == p {
                assert(cur[q] == e);
            } else {
                assert(cur[q] == prev[q - 1]);
            }
        }
    }
}

/// The first `i` candidates rank the same in any extension of the list.
proof fn lemma_rendezvous_prefix(key: Seq<char>, vols: Seq<Seq<char>>, vols2: Seq<Seq<char>>, i: int)
    requires
        0 <= i <= vols.len(),
        vols.len() <= vols2.len(),
        forall|j: int| 0 <= j < vols.len() ==> vols[j] == vols2[j],
    ensures
        rendezvous_order(key, vols2, i) == rendezvous_order(key, vols, i),
    decreases i,
{
    if i > 0 {
        lemma_rendezvous_prefix(key, vols, vols2, i - 1);
        assert(vols2[i - 1] == vols[i - 1]);
    }
}

/// Law: rendezvous placement has minimum churn — adding one volume to the
/// end of the configured list (equivalently, removing the last one) either
/// leaves a key's placement exactly as it was, or the new volume itself
/// ranks among the key's first `n` candidates. No third volume ever moves
/// in or out on another's account.
pub proof fn lemma_placement_churn(
    key: Seq<char>,
    vols: Seq<Seq<char>>,
    w: Seq<char>,
    n: int,
    s: int,
)
    requires
        0 <= n <= vols.len(),
    ensures
        placement(key, vols.push(w), n, s) == placement(key, vols, n, s) || exists|m: int|
            0 <= m < n && (#[trigger] rendezvous_order(
                key,
                vols.push(w),
                vols.push(w).len() as int,
            )[m]).1 == vols.len(),
{
    let vols2 = vols.push(w);
    let len = vols.len() as int;
    let o1 = rendezvous_order(key, vols, len);
    let o2 = rendezvous_order(key, vols2, len + 1);
    let e = (vol_digest(key, vols2[len]), len);
    assert(o2 == insert_ranked(e, rendezvous_order(key, vols2, len)));
    lemma_rendezvous_prefix(key, vols, vols2, len);
    assert(o2 == insert_ranked(e, o1));
    lemma_rendezvous_positions(key, vols, len);
    lemma_insert_ranked_split(e, o1);
    let p = insert_rank_position(e, o1);
    if p < n {
        assert(o2[p] == e);
        assert(o2[p].1 == len);
    } else {
        assert forall|m: int| 0 <= m < n implies #[trigger] o2[m] == o1[m] by {
            assert(o2[m] == o1.take(p)[m]);
        }
        assert(placement(key, vols2, n, s) =~= placement(key, vols, n, s)) by {
            assert forall|m: int| 0 <= m < n implies #[trigger] placement(key, vols2, n, s)[m]
                == placement(key, vols, n, s)[m] by {
                assert(o2[m] == o1[m]);
                assert(0 <= o1[m].1 < len);
                assert(vols2[o1[m].1] == vols[o1[m].1]);
            }
        }
    }
}

/// One candidate volume with its rendezvous digest.
struct RankedVol {
    digest: Vec<u8>,
    pos: usize,
}

spec fn ranked_view(es: Seq<RankedVol>) -> Seq<(Seq<u8>, int)> {
    es.map_values(|e: RankedVol| (e.digest@, e.pos as int))
}

/// Compares two equally long digests, breaking ties by list position.
fn ranked_before(a: &RankedVol, b: &RankedVol) -> (r: bool)
    requires
        a.digest@.len() == b.digest@.len(),
    ensures
        r == rank_lt((a.digest@, a.pos as int), (b.digest@, b.pos as int)),
{
    let n = a.digest.len();
    proof {
        assert(a.digest@.skip(0) =~= a.digest@);
        assert(b.digest@.skip(0) =~= b.digest@);
    }
    let mut i: usize = 0;
    while i < n
        invariant
            i <= n,
            n == a.digest@.len() == b.digest@.len(),
            a.digest@.take(i as int) =~= b.digest@.take(i as int),
            bytes_lt(a.digest@, b.digest@) == bytes_lt(
                a.digest@.skip(i as int),
                b.digest@.skip(i as int),
            ),
        decreases n - i,
    {
        let x = a.digest[i];
        let y = b.digest[i];
        proof {
            assert(a.digest@.skip(i as int)[0] == a.digest@[i as int]);
            assert(b.digest@.skip(i as int)[0] == b.digest@[i as int]);
            assert(a.digest@.skip(i as int).drop_first() =~= a.digest@.skip(i + 1));
            assert(b.digest@.skip(i as int).drop_first() =~= b.digest@.skip(i + 1));
        }
        if x != y {
            proof {
                assert(bytes_lt(a.digest@, b.digest@) == (x < y));
            }
            return x < y;
        }
        proof {
            assert(a.digest@.take(i + 1) =~= b.digest@.take(i + 1));
        }
        i += 1;
    }
    proof {
        assert(a.digest@.take(n as int) =~= a.digest@);
        assert(b.digest@.take(n as int) =~= b.digest@);
        assert(a.digest@ == b.digest@);
        assert(a.digest@.skip(n as int).len() == 0);
        assert(!bytes_lt(a.digest@.skip(n as int), b.digest@.skip(n as int)));
    }
    a.pos < b.pos
}

proof fn lemma_insert_ranked_at(e: (Seq<u8>, int), s: Seq<(Seq<u8>, int)>, j: int)
    requires
        0 <= j <= s.len(),
        forall|m: int| 0 <= m < j ==> !rank_lt(e, s[m]),
        j < s.len() ==> rank_lt(e, s[j]),
    ensures
        insert_ranked(e, s) == s.take(j) + seq![e] + s.skip(j),
    decreases j,
{
    if j == 0 {
        if s.len() == 0 {
            assert(insert_ranked(e, s) =~= s.take(0) + seq![e] + s.skip(0));
        } else {
            assert(rank_lt(e, s[0]));
            assert(insert_ranked(e, s) =~= s.take(0) + seq![e] + s.skip(0));
        }
    } else {
        assert(!rank_lt(e, s[0]));
        lemma_insert_ranked_at(e, s.drop_first(), j - 1);
        assert(s.drop_first().take(j - 1) =~= s.skip(1).take(j - 1));
        assert(insert_ranked(e, s) == seq![s[0]] + (s.drop_first().take(j - 1) + seq![e]
            + s.drop_first().skip(j - 1)));
        assert(seq![s[0]] + (s.drop_first().take(j - 1) + seq![e] + s.drop_first().skip(j - 1))
            =~= s.take(j) + seq![e] + s.skip(j));
    }
}

/// Maps a key to its target volumes: all candidates are ranked by the MD5
/// digest of key plus volume, the `count` lowest are taken in rank order,
/// and, when `svcount` exceeds one, each carries the `/svNN` sub-volume
/// suffix chosen by digest bytes 12 through 15.
pub fn key_to_volume(key: &str, volumes: &[String], count: i32, svcount: i32) -> (r: Vec<String>)
    requires
        1 <= count as int <= volumes@.len(),
        1 <= svcount,
    ensures
        r.deep_view() == placement(key@, volumes.deep_view(), count as int, svcount as int),
        r@.len() == count as int,
        placement_from(volumes.deep_view(), key@, svcount as int, r.deep_view()),
{
    let ghost vols_dv = volumes.deep_view();
    let kb = key.as_bytes();
    let mut entries: Vec<RankedVol> = Vec::new();
    let mut i: usize = 0;
    while i < volumes.len()
        invariant
            i <= volumes@.len(),
            vols_dv == volumes.deep_view(),
            vols_dv.len() == volumes@.len(),
            kb@ == encode_utf8(key@),
            entries@.len() == i,
            ranked_view(entries@) == rendezvous_order(key@, vols_dv, i as int),
            forall|m: int|
                0 <= m < entries@.len() ==> (#[trigger] entries@[m]).pos < i
                    && entries@[m].digest@.len() == 16
                    && entries@[m].digest@ == vol_digest(key@, vols_dv[entries@[m].pos as int]),
            forall|a: int, b: int|
                #![trigger entries@[a], entries@[b]]
                0 <= a < b < entries@.len() ==> entries@[a].pos != entries@[b].pos,
        decreases volumes@.len() - i,
    {
        let mut data: Vec<u8> = Vec::new();
        push_bytes(&mut data, kb);
        push_bytes(&mut data, volumes[i].as_str().as_bytes());
        let digest = md5_digest(data.as_slice());
        proof {
            assert(vols_dv[i as int] == volumes@[i as int]@);
            assert(digest@ == vol_digest(key@, vols_dv[i as int]));
        }
        let e = RankedVol { digest, pos: i };
        let j = rank_position(&entries, &e);
        proof {
            lemma_insert_ranked_at((e.digest@, e.pos as int), ranked_view(entries@), j as int);
        }
        let ghost old_entries = entries@;
        entries.insert(j, e);
        proof {
            assert(ranked_view(entries@) =~= ranked_view(old_entries).take(j as int) + seq![
                (entries@[j as int].digest@, entries@[j as int].pos as int),
            ] + ranked_view(old_entries).skip(j as int));
            assert(ranked_view(entries@) == rendezvous_order(key@, vols_dv, i + 1));
            assert forall|a: int, b: int|
                #![trigger entries@[a], entries@[b]]
                0 <= a < b < entries@.len() implies entries@[a].pos != entries@[b].pos by {
                if a < j as int {
                    assert(entries@[a] == old_entries[a]);
                } else if a == j as int {
                    assert(entries@[a] == e);
                } else {
                    assert(entries@[a] == old_entries[a - 1]);
                }
                if b < j as int {
                    assert(entries@[b] == old_entries[b]);
                } else if b == j as int {
                    assert(entries@[b] == e);
                } else {
                    assert(entries@[b] == old_entries[b - 1]);
                }
            }
        }
        i += 1;
    }
    let ghost order = rendezvous_order(key@, vols_dv, vols_dv.len() as int);
    proof {
        assert(order == ranked_view(entries@));
        assert(order.len() == entries@.len());
    }
    let n = count as usize;
    let mut r: Vec<String> = Vec::new();
    let mut m: usize = 0;
    while m < n
        invariant
            m <= n,
            n as int <= entries@.len(),
            vols_dv == volumes.deep_view(),
            vols_dv.len() == volumes@.len(),
            order == ranked_view(entries@),
            1 <= svcount,
            forall|q: int|
                0 <= q < entries@.len() ==> (#[trigger] entries@[q]).pos < volumes@.len()
                    && entries@[q].digest@.len() == 16
                    && entries@[q].digest@ == vol_digest(key@, vols_dv[entries@[q].pos as int]),
            forall|a: int, b: int|
                #![trigger entries@[a], entries@[b]]
                0 <= a < b < entries@.len() ==> entries@[a].pos != entries@[b].pos,
            r@.len() == m,
            forall|q: int|
                0 <= q < m ==> r.deep_view()[q] == vols_dv[order[q].1] + sv_suffix(
                    order[q].0,
                    svcount as int,
                ),
        decreases n - m,
    {
        let pos = entries[m].pos;
        let mut v = volumes[pos].clone();
        proof {
            assert(order[m as int] == (entries@[m as int].digest@, entries@[m as int].pos as int));
            assert(v@ == vols_dv[order[m as int].1]);
        }
        if svcount != 1 {
            let d12 = entries[m].digest[12];
            let d13 = entries[m].digest[13];
            let d14 = entries[m].digest[14];
            let d15 = entries[m].digest[15];
            let h: u32 = (d12 as u32) * 16777216 + (d13 as u32) * 65536 + (d14 as u32) * 256 + (
            d15 as u32);
            let k = h % (svcount as u32);
            proof {
                assert(h as int == sv_hash(entries@[m as int].digest@));
                assert(k as int == sv_hash(order[m as int].0) % (svcount as int));
            }
            v.append("/sv");
            proof {
                reveal_strlit("/sv");
                assert("/sv"@ =~= seq!['/', 's', 'v']);
            }
            if k < 10 {
                v.append("0");
                v.append(digit_str(k));
                proof {
                    reveal_strlit("0");
                    assert("0"@ =~= seq!['0']);
                    assert(v@ =~= vols_dv[order[m as int].1] + sv_suffix(
                        order[m as int].0,
                        svcount as int,
                    ));
                }
            } else {
                let label = dec_string(k);
                v.append(label.as_str());
                proof {
                    assert(v@ =~= vols_dv[order[m as int].1] + sv_suffix(
                        order[m as int].0,
                        svcount as int,
                    ));
                }
            }
        } else {
            proof {
                assert(v@ =~= vols_dv[order[m as int].1] + sv_suffix(
                    order[m as int].0,
                    svcount as int,
                ));
            }
        }
        let ghost r_dv = r.deep_view();
        r.push(v);
        proof {
            assert(r.deep_view() =~= r_dv.push(v@));
        }
        m += 1;
    }
    proof {
        assert(r.deep_view() =~= placement(key@, vols_dv, count as int, svcount as int));
        let ps = Seq::new(r.deep_view().len(), |q: int| entries@[q].pos as int);
        assert(placement_positions(vols_dv, key@, svcount as int, r.deep_view(), ps)) by {
            assert forall|q: int| 0 <= q < ps.len() implies 0 <= #[trigger] ps[q] < vols_dv.len()
                && r.deep_view()[q] == vols_dv[ps[q]] + sv_suffix(
                vol_digest(key@, vols_dv[ps[q]]),
                svcount as int,
            ) by {
                assert(order[q] == (entries@[q].digest@, entries@[q].pos as int));
            }
        }
        assert(placement_from(vols_dv, key@, svcount as int, r.deep_view()));
    }
    r
}

/// The position at which a candidate belongs in a rank-sorted vector: after
/// every entry it does not rank strictly below.
fn rank_position(entries: &Vec<RankedVol>, e: &RankedVol) -> (j: usize)
    requires
        e.digest@.len() == 16,
        forall|m: int|
            0 <= m < entries@.len() ==> (#[trigger] entries@[m]).digest@.len() == 16,
    ensures
        j <= entries@.len(),
        forall|m: int|
            0 <= m < j ==> !rank_lt((e.digest@, e.pos as int), ranked_view(entries@)[m]),
        j < entries@.len() ==> rank_lt(
            (e.digest@, e.pos as int),
            ranked_view(entries@)[j as int],
        ),
{
    let mut j: usize = 0;
    while j < entries.len()
        invariant
            j <= entries@.len(),
            e.digest@.len() == 16,
            forall|m: int|
                0 <= m < entries@.len() ==> (#[trigger] entries@[m]).digest@.len() == 16,
            forall|m: int|
                0 <= m < j ==> !rank_lt((e.digest@, e.pos as int), ranked_view(entries@)[m]),
        decreases entries@.len() - j,
    {
        proof {
            assert(ranked_view(entries@)[j as int] == (
                entries@[j as int].digest@,
                entries@[j as int].pos as int,
            ));
        }
        if ranked_before(e, &entries[j]) {
            return j;
        }
        j += 1;
    }
    j
}

/// Appends the bytes of a slice to a byte vector.
fn push_bytes(dst: &mut Vec<u8>, src: &[u8])
    ensures
        final(dst)@ == old(dst)@ + src@,
{
    let mut i: usize = 0;
    while i < src.len()
        invariant
            i <= src@.len(),
            dst@ == old(dst)@ + src@.take(i as int),
        decreases src@.len() - i,
    {
        dst.push(src[i]);
        proof {
            assert(old(dst)@ + src@.take(i as int) + seq![src@[i as int]] =~= old(dst)@
                + src@.take(i + 1));
        }
        i += 1;
    }
    proof {
        assert(src@.take(src@.len() as int) =~= src@);
    }
}

/// True iff the current replica list and the target replica list differ in
/// length or in any position, i.e. the key's placement is stale.
pub fn needs_rebalance(volumes: &[String], kvolumes: &[String]) -> (r: bool)
    ensures
        r == (volumes.deep_view() != kvolumes.deep_view()),
{
    let vlen = volumes.len();
    let klen = kvolumes.len();
    if vlen != klen {
        assert(volumes.deep_view().len() != kvolumes.deep_view().len());
        return true;
    }
    let mut i: usize = 0;
    while i < vlen
        invariant
            vlen == volumes.deep_view().len(),
            vlen == kvolumes.deep_view().len(),
            i <= vlen,
            forall|j: int| 0 <= j < i ==> volumes.deep_view()[j] == kvolumes.deep_view()[j],
        decreases vlen - i,
    {
        if volumes[i] != kvolumes[i] {
            assert(volumes.deep_view()[i as int] != kvolumes.deep_view()[i as int]);
            return true;
        }
        i += 1;
    }
    assert(volumes.deep_view() =~= kvolumes.deep_view());
    false
}

} // verus!
