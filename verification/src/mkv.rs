//! The request coordinator: the master's state — index, per-key lock
//! table and static configuration — and the decisions behind every client
//! operation. Remote HTTP traffic happens outside; each handler is split at
//! those calls, and the pieces on this side carry full contracts.
use vstd::prelude::*;

use crate::hash::{
    key_to_path, key_to_volume, placement, placement_from, placement_positions, sv_suffix,
    vol_digest,
};
use crate::index::{lex_position, Index};
use crate::lock::LockTable;
use crate::record::{
    clean_volume, decodable, decode_record, encode_record, has_prefix,
    lemma_clean_record_encode_safe, lemma_record_round_trip, Deleted, Record, RecordV,
};
use crate::digest::{dec_chars, dec_digit, hex_chars, hex_string, lemma_hex_chars_len, md5_digest, md5_of};
use crate::hash::path_of;
use vstd::string::StringSliceAdditionalSpecFns;
use vstd::utf8::encode_utf8;

verus! {

/// What the index keeps of every record it stores: a persistable deletion
/// state, an absent or full hash, and at least one clean replica name.
pub open spec fn stored_ok(r: RecordV) -> bool {
    &&& r.deleted != Deleted::Hard
    &&& (r.hash.len() == 0 || r.hash.len() == 32)
    &&& r.rvolumes.len() >= 1
    &&& (forall|i: int| 0 <= i < r.rvolumes.len() ==> clean_volume(#[trigger] r.rvolumes[i]))
}

/// What every live record owes its readers: a full hash and at least one
/// replica.
pub open spec fn live_ok(r: RecordV) -> bool {
    r.deleted is No ==> (r.hash.len() == 32 && r.rvolumes.len() >= 1)
}

/// Every decimal character is a digit, so a sub-volume label never holds a
/// comma or a slash.
proof fn lemma_dec_chars_digits(n: int)
    ensures
        forall|i: int|
            0 <= i < dec_chars(n).len() ==> 48 <= (#[trigger] dec_chars(n)[i]) as int <= 57,
    decreases n,
{
    if n >= 10 {
        lemma_dec_chars_digits(n / 10);
        assert(dec_chars(n) == dec_chars(n / 10).push(dec_digit(n % 10)));
        assert(forall|i: int|
            0 <= i < dec_chars(n / 10).len() ==> dec_chars(n)[i] == dec_chars(n / 10)[i]);
    }
}

/// A clean volume name stays clean when its sub-volume suffix is appended:
/// the suffix is a slash, two letters and digits, none of which can open a
/// marker or hide a comma.
proof fn lemma_suffixed_clean(v: Seq<char>, d: Seq<u8>, s: int)
    requires
        clean_volume(v),
    ensures
        clean_volume(v + sv_suffix(d, s)),
{
    reveal_strlit("HASH");
    reveal_strlit("DELETED");
    let sfx = sv_suffix(d, s);
    let w = v + sfx;
    assert(forall|i: int| 0 <= i < v.len() ==> v[i] != ',') by {
        assert(!v.contains(','));
    }
    if s <= 1 {
        assert(w =~= v);
    } else {
        let label = crate::hash::sv_label(crate::hash::sv_hash(d) % s);
        assert(sfx == seq!['/', 's', 'v'] + label);
        assert(forall|i: int| 0 <= i < label.len() ==> 48 <= (#[trigger] label[i]) as int <= 57)
            by {
            lemma_dec_chars_digits(crate::hash::sv_hash(d) % s);
        }
        assert(forall|i: int| 0 <= i < sfx.len() ==> sfx[i] != ',');
        assert(!w.contains(',')) by {
            if w.contains(',') {
                let i = choose|i: int| 0 <= i < w.len() && w[i] == ',';
                if i < v.len() {
                    assert(v[i] == ',');
                } else {
                    assert(sfx[i - v.len()] == ',');
                }
            }
        }
        assert(sfx[0] == '/');
        lemma_concat_keeps_prefix_free(v, sfx, "HASH"@);
        lemma_concat_keeps_prefix_free(v, sfx, "DELETED"@);
    }
}

/// Appending anything that opens with a slash cannot create a marker
/// prefix, since the markers hold no slash.
proof fn lemma_concat_keeps_prefix_free(v: Seq<char>, sfx: Seq<char>, lit: Seq<char>)
    requires
        !has_prefix(v, lit),
        sfx.len() > 0,
        sfx[0] == '/',
        forall|i: int| 0 <= i < lit.len() ==> (#[trigger] lit[i]) != '/',
    ensures
        !has_prefix(v + sfx, lit),
{
    let w = v + sfx;
    if has_prefix(w, lit) {
        if v.len() >= lit.len() {
            assert(forall|i: int| 0 <= i < lit.len() ==> w[i] == v[i]);
            assert(v.take(lit.len() as int) =~= w.take(lit.len() as int));
            assert(false);
        } else {
            assert(w[v.len() as int] == sfx[0]);
            assert(w.take(lit.len() as int)[v.len() as int] == lit[v.len() as int]);
            assert(lit[v.len() as int] == '/');
            assert(false);
        }
    }
}

/// Every volume of a computed placement is clean whenever the configured
/// volumes are.
proof fn lemma_placement_clean(vols: Seq<Seq<char>>, key: Seq<char>, s: int, out: Seq<Seq<char>>)
    requires
        placement_from(vols, key, s, out),
        forall|i: int| 0 <= i < vols.len() ==> clean_volume(#[trigger] vols[i]),
    ensures
        forall|m: int| 0 <= m < out.len() ==> clean_volume(#[trigger] out[m]),
{
    let ps = choose|ps: Seq<int>| #[trigger] placement_positions(vols, key, s, out, ps);
    assert forall|m: int| 0 <= m < out.len() implies clean_volume(#[trigger] out[m]) by {
        lemma_suffixed_clean(vols[ps[m]], vol_digest(key, vols[ps[m]]), s);
    }
}

/// The blob-store master: the key→record index, the per-key lock table,
/// and the static configuration chosen at startup.
pub struct Minikeyvalue {
    db: Index,
    lock: LockTable,
    volumes: Vec<String>,
    fallback: String,
    replicas: i32,
    subvolumes: i32,
    port: u16,
    protect: bool,
}

impl Minikeyvalue {
    /// The stored association, key to encoded record.
    pub closed spec fn records(&self) -> Map<Seq<char>, Seq<char>> {
        self.db.as_map()
    }

    /// The stored keys in scan order.
    pub closed spec fn scan_keys(&self) -> Seq<Seq<char>> {
        self.db.keys_in_order()
    }

    /// Whether a mutation currently owns `k`.
    pub closed spec fn key_locked(&self, k: Seq<char>) -> bool {
        self.lock.locked(k)
    }

    pub closed spec fn config_volumes(&self) -> Seq<Seq<char>> {
        self.volumes.deep_view()
    }

    pub closed spec fn config_replicas(&self) -> int {
        self.replicas as int
    }

    pub closed spec fn config_subvolumes(&self) -> int {
        self.subvolumes as int
    }

    pub closed spec fn config_protect(&self) -> bool {
        self.protect
    }

    pub closed spec fn config_fallback(&self) -> Seq<char> {
        self.fallback@
    }

    /// The record stored under `k`, decoded; `None` when the key is absent.
    pub open spec fn stored(&self, k: Seq<char>) -> Option<RecordV> {
        if self.records().contains_key(k) {
            Some(decode_record(self.records()[k]))
        } else {
            None::<RecordV>
        }
    }

    /// The placement the configuration assigns to `k`.
    pub open spec fn target_placement(&self, k: Seq<char>) -> Seq<Seq<char>> {
        placement(k, self.config_volumes(), self.config_replicas(), self.config_subvolumes())
    }

    /// The standing invariant: well-formed index and lock table, a sane
    /// configuration of clean volume names, and only well-formed encoded
    /// records in the index.
    pub closed spec fn wf(&self) -> bool {
        &&& self.db.wf()
        &&& self.lock.wf()
        &&& 1 <= self.replicas as int <= self.volumes.deep_view().len()
        &&& 1 <= self.subvolumes as int
        &&& self.volumes.deep_view().len() == self.volumes@.len()
        &&& (forall|i: int|
            0 <= i < self.volumes.deep_view().len() ==> clean_volume(
                #[trigger] self.volumes.deep_view()[i],
            ))
        &&& (forall|k: Seq<char>|
            self.records().contains_key(k) ==> decodable(#[trigger] self.records()[k])
                && stored_ok(decode_record(self.records()[k])))
    }

    /// Law: every live record carries a full hash and a non-empty replica
    /// list, as long as the client operations preserved it.
    pub open spec fn all_live_ok(&self) -> bool {
        forall|k: Seq<char>| #[trigger] self.stored(k) matches Some(r) ==> live_ok(r)
    }

    /// A fresh master. The volume names must be clean — they come from a
    /// comma-separated flag, and a name opening with a codec marker would
    /// corrupt the index format — and there must be at least as many
    /// volumes as replicas.
    pub fn new(
        volumes: Vec<String>,
        fallback: String,
        replicas: i32,
        subvolumes: i32,
        protect: bool,
        port: u16,
    ) -> (r: Minikeyvalue)
        requires
            1 <= replicas as int <= volumes.deep_view().len(),
            1 <= subvolumes,
            forall|i: int|
                0 <= i < volumes.deep_view().len() ==> clean_volume(
                    #[trigger] volumes.deep_view()[i],
                ),
        ensures
            r.wf(),
            r.records() == Map::<Seq<char>, Seq<char>>::empty(),
            forall|k: Seq<char>| !r.key_locked(k),
            r.config_volumes() == volumes.deep_view(),
            r.config_replicas() == replicas as int,
            r.config_subvolumes() == subvolumes as int,
            r.config_protect() == protect,
            r.config_fallback() == fallback@,
            r.scan_keys() == Seq::<Seq<char>>::empty(),
            r.all_live_ok(),
    {
        let r = Minikeyvalue {
            db: Index::new(),
            lock: LockTable::new(),
            volumes,
            fallback,
            replicas,
            subvolumes,
            port,
            protect,
        };
        r
    }

    /// Takes the per-key lock; false means another mutation owns the key.
    pub fn lock_key(&mut self, key: &str) -> (r: bool)
        requires
            old(self).wf(),
        ensures
            final(self).wf(),
            r == !old(self).key_locked(key@),
            final(self).key_locked(key@),
            forall|k: Seq<char>|
                k != key@ ==> final(self).key_locked(k) == old(self).key_locked(k),
            final(self).records() == old(self).records(),
            final(self).scan_keys() == old(self).scan_keys(),
            final(self).config_unchanged(*old(self)),
    {
        self.lock.try_lock(key)
    }

    /// Releases the per-key lock.
    pub fn unlock_key(&mut self, key: &str)
        requires
            old(self).wf(),
        ensures
            final(self).wf(),
            !final(self).key_locked(key@),
            forall|k: Seq<char>|
                k != key@ ==> final(self).key_locked(k) == old(self).key_locked(k),
            final(self).records() == old(self).records(),
            final(self).scan_keys() == old(self).scan_keys(),
            final(self).config_unchanged(*old(self)),
    {
        self.lock.unlock(key)
    }

    /// True when nothing but the lock table and index differ.
    pub open spec fn config_unchanged(&self, o: Minikeyvalue) -> bool {
        &&& self.config_volumes() == o.config_volumes()
        &&& self.config_replicas() == o.config_replicas()
        &&& self.config_subvolumes() == o.config_subvolumes()
        &&& self.config_protect() == o.config_protect()
        &&& self.config_fallback() == o.config_fallback()
    }

    /// The configured volume names, as given at startup.
    pub fn volume_list(&self) -> (r: &Vec<String>)
        ensures
            r.deep_view() == self.config_volumes(),
    {
        &self.volumes
    }

    /// Reads the record stored under `key`; the `Hard` sentinel when the
    /// key is absent.
    pub fn get_record(&self, key: &str) -> (r: Record)
        requires
            self.wf(),
        ensures
            match self.stored(key@) {
                Some(rec) => r@ == rec,
                None => r@ == (RecordV {
                    rvolumes: Seq::<Seq<char>>::empty(),
                    deleted: Deleted::Hard,
                    hash: Seq::<char>::empty(),
                }),
            },
    {
        match self.db.get(key) {
            Some(v) => Record::decode(v.as_str()),
            None => Record::new(),
        }
    }

    /// Stores a record under `key`, returning the encoded record it
    /// replaces. The record must be storable: not `Hard` (such records are
    /// never serialized), a full or absent hash, and clean replica names.
    pub fn put_record(&mut self, key: &str, rec: Record) -> (prev: Option<String>)
        requires
            old(self).wf(),
            stored_ok(rec@),
        ensures
            final(self).wf(),
            final(self).records() == old(self).records().insert(key@, encode_record(rec@)),
            final(self).stored(key@) == Some(rec@),
            forall|k: Seq<char>|
                k != key@ ==> final(self).stored(k) == old(self).stored(k),
            forall|k: Seq<char>| final(self).key_locked(k) == old(self).key_locked(k),
            final(self).config_unchanged(*old(self)),
            final(self).scan_keys() == (if old(self).records().contains_key(key@) {
                old(self).scan_keys()
            } else {
                old(self).scan_keys().insert(
                    lex_position(old(self).scan_keys(), key@),
                    key@,
                )
            }),
            match prev {
                Some(p) => old(self).records().contains_key(key@) && p@ == old(self).records()[
                    key@
                ],
                None => !old(self).records().contains_key(key@),
            },
    {
        proof {
            lemma_clean_record_encode_safe(rec@);
            lemma_record_round_trip(rec@);
        }
        let prev = match self.db.get(key) {
            Some(v) => Some(v.clone()),
            None => None,
        };
        let encoded = rec.encode();
        self.db.put(key, encoded);
        proof {
            assert forall|k: Seq<char>| k != key@ implies final(self).stored(k) == old(self).stored(k) by {
                assert(final(self).records().contains_key(k) == old(self).records().contains_key(k));
            }
        }
        prev
    }
}

/// The outcome of opening a PUT: refused for a missing body, a busy key or
/// an existing live record, or started with the write targets.
pub enum PutBegin {
    LengthRequired,
    Busy,
    Exists,
    Started { targets: Vec<String>, path: String },
}

/// The admission decision for a PUT on one key: the body must have a
/// length, the key must be free, and the key must not hold a live record.
#[derive(PartialEq, Eq, Structural, Debug)]
pub enum Admission {
    LengthRequired,
    Busy,
    Exists,
    Go,
}

/// The admission decision for a PUT, from the observable state alone.
pub open spec fn put_gate(locked: bool, existing: Option<RecordV>, len: int) -> Admission {
    if len == 0 {
        Admission::LengthRequired
    } else if locked {
        Admission::Busy
    } else if existing matches Some(r) && r.deleted is No {
        Admission::Exists
    } else {
        Admission::Go
    }
}

/// Law: of concurrent PUTs on one key, at most one is admitted. While one
/// holds the key every other attempt is answered `Busy` (409), and once a
/// PUT has committed a live record every later attempt is answered
/// `Exists` (403); only a free key without a live record lets a PUT
/// through.
pub proof fn lemma_put_mutual_exclusion(existing: Option<RecordV>, len: int)
    requires
        len > 0,
    ensures
        put_gate(true, existing, len) is Busy,
        (existing matches Some(r) && r.deleted is No) ==> put_gate(false, existing, len)
            is Exists,
        put_gate(false, existing, len) is Go ==> !(existing matches Some(r)
            && r.deleted is No),
{
}


/// Two states with the same records observe the same live records.
proof fn lemma_same_records_live(m1: Minikeyvalue, m2: Minikeyvalue)
    requires
        m1.records() == m2.records(),
        m1.all_live_ok(),
    ensures
        m2.all_live_ok(),
{
    assert forall|k: Seq<char>| (#[trigger] m2.stored(k)) is Some implies live_ok(
        m2.stored(k).unwrap(),
    ) by {
        assert(m1.stored(k) == m2.stored(k));
        assert(m1.stored(k) is Some);
    }
}

/// Copies a volume list.
fn clone_volumes(v: &Vec<String>) -> (r: Vec<String>)
    ensures
        r.deep_view() == v.deep_view(),
        r@.len() == v@.len(),
{
    let mut r: Vec<String> = Vec::new();
    let mut i: usize = 0;
    while i < v.len()
        invariant
            i <= v@.len(),
            r@.len() == i,
            forall|j: int| 0 <= j < i ==> (#[trigger] r@[j])@ == v@[j]@,
        decreases v@.len() - i,
    {
        r.push(v[i].clone());
        i += 1;
    }
    proof {
        assert(r.deep_view() =~= v.deep_view());
    }
    r
}

impl Minikeyvalue {
    /// Opens a PUT: takes the admission decision, locks the key, and
    /// writes the in-progress record (soft-deleted, empty hash) naming the
    /// target volumes the caller must now write to.
    pub fn put_begin(&mut self, key: &str, content_length: usize) -> (r: PutBegin)
        requires
            old(self).wf(),
        ensures
            final(self).wf(),
            final(self).config_unchanged(*old(self)),
            (r is Started) == (put_gate(
                old(self).key_locked(key@),
                old(self).stored(key@),
                content_length as int,
            ) is Go),
            (r is LengthRequired) == (put_gate(
                old(self).key_locked(key@),
                old(self).stored(key@),
                content_length as int,
            ) is LengthRequired),
            (r is Busy) == (put_gate(
                old(self).key_locked(key@),
                old(self).stored(key@),
                content_length as int,
            ) is Busy),
            (r is Exists) == (put_gate(
                old(self).key_locked(key@),
                old(self).stored(key@),
                content_length as int,
            ) is Exists),
            !(r is Started) ==> final(self).records() == old(self).records() && final(self).scan_keys() == old(self).scan_keys() && forall|k: Seq<char>|
                final(self).key_locked(k) == old(self).key_locked(k),
            r matches PutBegin::Started { targets, path } ==> ({
                &&& targets.deep_view() == old(self).target_placement(key@)
                &&& targets@.len() == old(self).config_replicas()
                &&& path@ == path_of(md5_of(key.spec_bytes()))
                &&& final(self).key_locked(key@)
                &&& (forall|k: Seq<char>|
                    k != key@ ==> final(self).key_locked(k) == old(self).key_locked(k))
                &&& final(self).stored(key@) == Some(
                    RecordV {
                        rvolumes: old(self).target_placement(key@),
                        deleted: Deleted::Soft,
                        hash: Seq::<char>::empty(),
                    },
                )
                &&& (forall|k: Seq<char>|
                    k != key@ ==> final(self).stored(k) == old(self).stored(k))
                &&& final(self).scan_keys() == (if old(self).records().contains_key(key@) {
                    old(self).scan_keys()
                } else {
                    old(self).scan_keys().insert(
                        lex_position(old(self).scan_keys(), key@),
                        key@,
                    )
                })
            }),
            old(self).all_live_ok() ==> final(self).all_live_ok(),
    {
        if content_length == 0 {
            proof {
            if old(self).all_live_ok() {
                lemma_same_records_live(*old(self), *self);
            }
        }
        return PutBegin::LengthRequired;
        }
        if !self.lock_key(key) {
            proof {
            if old(self).all_live_ok() {
                lemma_same_records_live(*old(self), *self);
            }
        }
        return PutBegin::Busy;
        }
        let rec = self.get_record(key);
        if matches!(rec.deleted, Deleted::No) {
            self.unlock_key(key);
            proof {
            if old(self).all_live_ok() {
                lemma_same_records_live(*old(self), *self);
            }
        }
        return PutBegin::Exists;
        }
        let targets = key_to_volume(key, self.volumes.as_slice(), self.replicas, self.subvolumes);
        let path = key_to_path(key);
        let record = Record {
            rvolumes: clone_volumes(&targets),
            deleted: Deleted::Soft,
            hash: String::new(),
        };
        proof {
            lemma_placement_clean(
                self.config_volumes(),
                key@,
                self.config_subvolumes(),
                record.rvolumes.deep_view(),
            );
        }
        let _ = self.put_record(key, record);
        proof {
            assert forall|k: Seq<char>|
                old(self).all_live_ok() && (#[trigger] self.stored(k)) is Some implies live_ok(
                self.stored(k).unwrap(),
            ) by {
                if k != key@ {
                    assert(self.stored(k) == old(self).stored(k));
                }
            }
        }
        PutBegin::Started { targets, path }
    }

    /// Closes a PUT after the replica writes: on success, stores the live
    /// record with the body's MD5 hash; on any replica failure, leaves the
    /// in-progress record in place. Either way the key is released.
    pub fn put_commit(&mut self, key: &str, body: &[u8], ok: bool) -> (status: u16)
        requires
            old(self).wf(),
            old(self).stored(key@) is Some,
        ensures
            final(self).wf(),
            final(self).config_unchanged(*old(self)),
            !final(self).key_locked(key@),
            forall|k: Seq<char>|
                k != key@ ==> final(self).key_locked(k) == old(self).key_locked(k),
            final(self).scan_keys() == old(self).scan_keys(),
            !ok ==> status == 500 && final(self).records() == old(self).records(),
            ok ==> status == 201 && final(self).stored(key@) == Some(
                RecordV {
                    rvolumes: old(self).stored(key@).unwrap().rvolumes,
                    deleted: Deleted::No,
                    hash: hex_chars(md5_of(body@)),
                },
            ) && (forall|k: Seq<char>|
                k != key@ ==> final(self).stored(k) == old(self).stored(k)),
            old(self).all_live_ok() ==> final(self).all_live_ok(),
    {
        if !ok {
            self.unlock_key(key);
            proof {
            if old(self).all_live_ok() {
                lemma_same_records_live(*old(self), *self);
            }
        }
        return 500;
        }
        let rec = self.get_record(key);
        let digest = md5_digest(body);
        let hash = hex_string(&digest);
        proof {
            lemma_hex_chars_len(digest@);
        }
        let record = Record { rvolumes: rec.rvolumes, deleted: Deleted::No, hash };
        let _ = self.put_record(key, record);
        self.unlock_key(key);
        proof {
            assert forall|k: Seq<char>|
                old(self).all_live_ok() && (#[trigger] self.stored(k)) is Some implies live_ok(
                self.stored(k).unwrap(),
            ) by {
                if k != key@ {
                    assert(self.stored(k) == old(self).stored(k));
                }
            }
        }
        201
    }

    /// UNLINK: soft-deletes a live record, keeping its replica list and
    /// hash; no remote traffic. 409 when the key is busy, 404 when there
    /// is nothing live to unlink.
    pub fn unlink(&mut self, key: &str) -> (status: u16)
        requires
            old(self).wf(),
        ensures
            final(self).wf(),
            final(self).config_unchanged(*old(self)),
            final(self).scan_keys() == old(self).scan_keys(),
            forall|k: Seq<char>|
                k != key@ ==> final(self).key_locked(k) == old(self).key_locked(k),
            old(self).key_locked(key@) ==> status == 409 && final(self).records() == old(self).records() && final(self).key_locked(key@),
            !old(self).key_locked(key@) ==> !final(self).key_locked(key@),
            !old(self).key_locked(key@) && !(old(self).stored(key@) matches Some(r)
                && r.deleted is No) ==> status == 404 && final(self).records() == old(self).records(),
            !old(self).key_locked(key@) && (old(self).stored(key@) matches Some(r)
                && r.deleted is No) ==> status == 204 && final(self).stored(key@) == Some(
                RecordV {
                    rvolumes: old(self).stored(key@).unwrap().rvolumes,
                    deleted: Deleted::Soft,
                    hash: old(self).stored(key@).unwrap().hash,
                },
            ) && (forall|k: Seq<char>|
                k != key@ ==> final(self).stored(k) == old(self).stored(k)),
            old(self).all_live_ok() ==> final(self).all_live_ok(),
    {
        if !self.lock_key(key) {
            proof {
            if old(self).all_live_ok() {
                lemma_same_records_live(*old(self), *self);
            }
        }
        return 409;
        }
        let rec = self.get_record(key);
        match rec.deleted {
            Deleted::No => {
                let record = Record {
                    rvolumes: rec.rvolumes,
                    deleted: Deleted::Soft,
                    hash: rec.hash,
                };
                let _ = self.put_record(key, record);
                self.unlock_key(key);
                proof {
                    assert forall|k: Seq<char>|
                        old(self).all_live_ok() && (#[trigger] self.stored(k)) is Some implies
                        live_ok(self.stored(k).unwrap()) by {
                        if k != key@ {
                            assert(self.stored(k) == old(self).stored(k));
                        }
                    }
                }
                204
            },
            _ => {
                self.unlock_key(key);
                proof {
                    if old(self).all_live_ok() {
                        lemma_same_records_live(*old(self), *self);
                    }
                }
                404
            },
        }
    }

    /// Opens a hard DELETE: refuses a busy key (409), a missing record
    /// (404) or a protected live record (403); otherwise soft-deletes the
    /// record and hands back the replicas the caller must now delete,
    /// keeping the key locked.
    pub fn delete_begin(&mut self, key: &str) -> (r: DeleteBegin)
        requires
            old(self).wf(),
        ensures
            final(self).wf(),
            final(self).config_unchanged(*old(self)),
            final(self).scan_keys() == old(self).scan_keys(),
            forall|k: Seq<char>|
                k != key@ ==> final(self).key_locked(k) == old(self).key_locked(k),
            (r is Busy) == old(self).key_locked(key@),
            r is Busy ==> final(self).records() == old(self).records() && final(self).key_locked(key@),
            (r is Missing) == (!old(self).key_locked(key@) && old(self).stored(key@) is None),
            (r is Protected) == (!old(self).key_locked(key@) && old(self).config_protect() && (
            old(self).stored(key@) matches Some(rec) && rec.deleted is No)),
            (r is Missing || r is Protected) ==> final(self).records() == old(self).records()
                && !final(self).key_locked(key@),
            r matches DeleteBegin::Proceed { rvolumes, path } ==> ({
                &&& !old(self).key_locked(key@)
                &&& old(self).stored(key@) is Some
                &&& rvolumes.deep_view() == old(self).stored(key@).unwrap().rvolumes
                &&& path@ == path_of(md5_of(key.spec_bytes()))
                &&& final(self).key_locked(key@)
                &&& final(self).stored(key@) == Some(
                    RecordV {
                        rvolumes: old(self).stored(key@).unwrap().rvolumes,
                        deleted: Deleted::Soft,
                        hash: old(self).stored(key@).unwrap().hash,
                    },
                )
                &&& (forall|k: Seq<char>|
                    k != key@ ==> final(self).stored(k) == old(self).stored(k))
            }),
            old(self).all_live_ok() ==> final(self).all_live_ok(),
    {
        if !self.lock_key(key) {
            proof {
            if old(self).all_live_ok() {
                lemma_same_records_live(*old(self), *self);
            }
        }
        return DeleteBegin::Busy;
        }
        let rec = self.get_record(key);
        if matches!(rec.deleted, Deleted::Hard) {
            self.unlock_key(key);
            proof {
            if old(self).all_live_ok() {
                lemma_same_records_live(*old(self), *self);
            }
        }
        return DeleteBegin::Missing;
        }
        if self.protect && matches!(rec.deleted, Deleted::No) {
            self.unlock_key(key);
            proof {
            if old(self).all_live_ok() {
                lemma_same_records_live(*old(self), *self);
            }
        }
        return DeleteBegin::Protected;
        }
        let path = key_to_path(key);
        let rvolumes = clone_volumes(&rec.rvolumes);
        let record = Record { rvolumes: rec.rvolumes, deleted: Deleted::Soft, hash: rec.hash };
        let _ = self.put_record(key, record);
        proof {
            assert forall|k: Seq<char>|
                old(self).all_live_ok() && (#[trigger] self.stored(k)) is Some implies live_ok(
                self.stored(k).unwrap(),
            ) by {
                if k != key@ {
                    assert(self.stored(k) == old(self).stored(k));
                }
            }
        }
        DeleteBegin::Proceed { rvolumes, path }
    }

    /// Closes a hard DELETE after the replica deletes: on all-success the
    /// key leaves the index (204); on any failure the record stays
    /// soft-deleted (500). Either way the key is released.
    pub fn delete_finish(&mut self, key: &str, all_ok: bool) -> (status: u16)
        requires
            old(self).wf(),
        ensures
            final(self).wf(),
            final(self).config_unchanged(*old(self)),
            !final(self).key_locked(key@),
            forall|k: Seq<char>|
                k != key@ ==> final(self).key_locked(k) == old(self).key_locked(k),
            all_ok ==> status == 204 && final(self).records() == old(self).records().remove(
                key@,
            ) && final(self).scan_keys() == old(self).scan_keys().remove_value(key@) && final(self).stored(key@) is None && (forall|k: Seq<char>|
                k != key@ ==> final(self).stored(k) == old(self).stored(k)),
            !all_ok ==> status == 500 && final(self).records() == old(self).records() && final(self).scan_keys() == old(self).scan_keys(),
            old(self).all_live_ok() ==> final(self).all_live_ok(),
    {
        if all_ok {
            self.db.remove(key);
            self.unlock_key(key);
            proof {
                assert forall|k: Seq<char>| k != key@ implies self.stored(k) == old(self).stored(k) by {
                    assert(self.records().contains_key(k) == old(self).records().contains_key(k));
                }
                assert forall|k: Seq<char>|
                        old(self).all_live_ok() && (#[trigger] self.stored(k)) is Some implies
                        live_ok(self.stored(k).unwrap()) by {
                        if k != key@ {
                            assert(self.stored(k) == old(self).stored(k));
                        }
                    }
            }
            204
        } else {
            self.unlock_key(key);
            proof {
                if old(self).all_live_ok() {
                    lemma_same_records_live(*old(self), *self);
                }
            }
            500
        }
    }
}

/// The outcome of opening a hard DELETE.
pub enum DeleteBegin {
    Busy,
    Missing,
    Protected,
    Proceed { rvolumes: Vec<String>, path: String },
}

/// The plan for a GET or HEAD: respond 404 at once, or probe replicas in
/// order and redirect to the first that answers.
pub enum GetPlan {
    Miss { content_md5: String },
    Probe { rvolumes: Vec<String>, path: String, content_md5: String },
}

/// How a GET ends once the probes are in.
pub enum GetOutcome {
    Redirect { location: String },
    NotFound,
}

/// A volume URL: scheme, volume, storage path.
pub open spec fn url_of(vol: Seq<char>, path: Seq<char>) -> Seq<char> {
    "http://"@ + vol + path
}

/// The index of the first replica that answered.
pub open spec fn first_alive(heads: Seq<bool>) -> int
    decreases heads.len(),
{
    if heads.len() == 0 {
        0
    } else if heads[0] {
        0
    } else {
        1 + first_alive(heads.drop_first())
    }
}

proof fn lemma_first_alive_at(heads: Seq<bool>, i: int)
    requires
        0 <= i <= heads.len(),
        forall|m: int| 0 <= m < i ==> !heads[m],
        i < heads.len() ==> heads[i],
    ensures
        first_alive(heads) == i,
    decreases i,
{
    if i > 0 {
        assert(!heads[0]);
        assert(forall|m: int| 0 <= m < i - 1 ==> heads.drop_first()[m] == heads[m + 1]);
        lemma_first_alive_at(heads.drop_first(), i - 1);
    }
}

/// The URL a client is redirected to.
pub fn remote_url(vol: &str, path: &str) -> (r: String)
    ensures
        r@ == url_of(vol@, path@),
{
    let mut r = String::from_str("http://");
    r.append(vol);
    r.append(path);
    proof {
        assert(r@ =~= url_of(vol@, path@));
    }
    r
}

/// Decides a GET from the probe results: a 302 to the first replica that
/// answered, or a 404 when none did.
pub fn get_resolve(rvolumes: &Vec<String>, path: &str, heads: &Vec<bool>) -> (r: GetOutcome)
    requires
        heads@.len() == rvolumes@.len(),
    ensures
        (exists|i: int| 0 <= i < heads@.len() && heads@[i]) ==> (r matches GetOutcome::Redirect {
            location,
        } && location@ == url_of(rvolumes.deep_view()[first_alive(heads@)], path@)),
        (forall|i: int| 0 <= i < heads@.len() ==> !heads@[i]) ==> r is NotFound,
{
    let n = heads.len();
    let mut i: usize = 0;
    while i < n
        invariant
            i <= n,
            n == heads@.len(),
            n == rvolumes@.len(),
            forall|m: int| 0 <= m < i ==> !heads@[m],
        decreases n - i,
    {
        if heads[i] {
            proof {
                lemma_first_alive_at(heads@, i as int);
            }
            let location = remote_url(rvolumes[i].as_str(), path);
            return GetOutcome::Redirect { location };
        }
        i += 1;
    }
    GetOutcome::NotFound
}

/// What a listing answers: the cursor for the next page and the keys of
/// this one.
pub struct ListResponse {
    pub next: String,
    pub keys: Vec<String>,
}

/// The stored keys, in scan order, whose record is in the wanted deletion
/// state.
pub open spec fn select_keys(
    m: Map<Seq<char>, Seq<char>>,
    keys: Seq<Seq<char>>,
    want: Deleted,
) -> Seq<Seq<char>>
    decreases keys.len(),
{
    if keys.len() == 0 {
        Seq::empty()
    } else {
        select_keys(m, keys.drop_last(), want) + (if m.contains_key(keys.last())
            && decode_record(m[keys.last()]).deleted == want {
            seq![keys.last()]
        } else {
            Seq::empty()
        })
    }
}

proof fn lemma_select_monotone(m: Map<Seq<char>, Seq<char>>, keys: Seq<Seq<char>>, want: Deleted, i: int)
    requires
        0 <= i <= keys.len(),
    ensures
        select_keys(m, keys, want).len() >= select_keys(m, keys.take(i), want).len(),
    decreases keys.len(),
{
    if i == keys.len() {
        assert(keys.take(i) =~= keys);
    } else {
        assert(keys.take(i) =~= keys.drop_last().take(i));
        lemma_select_monotone(m, keys.drop_last(), want, i);
    }
}

/// Law: a listing can show a key in one state only — the one its stored
/// record carries. A key selected for `want` decodes to `want`, so no key
/// appears both live and soft-deleted, and a hard-deleted state, never
/// being stored, is never listed.
pub proof fn lemma_list_observes_one_state(
    m: Map<Seq<char>, Seq<char>>,
    keys: Seq<Seq<char>>,
    want: Deleted,
    k: Seq<char>,
)
    requires
        select_keys(m, keys, want).contains(k),
    ensures
        m.contains_key(k),
        decode_record(m[k]).deleted == want,
    decreases keys.len(),
{
    if keys.len() > 0 {
        let sel = select_keys(m, keys, want);
        let left = select_keys(m, keys.drop_last(), want);
        let i = choose|i: int| 0 <= i < sel.len() && sel[i] == k;
        if i < left.len() {
            assert(left[i] == k);
            assert(left.contains(k));
            lemma_list_observes_one_state(m, keys.drop_last(), want, k);
        } else {
            assert(sel[i] == keys.last());
        }
    }
}

/// One volume list minus another, order kept.
pub open spec fn seq_diff(a: Seq<Seq<char>>, b: Seq<Seq<char>>) -> Seq<Seq<char>>
    decreases a.len(),
{
    if a.len() == 0 {
        Seq::empty()
    } else {
        seq_diff(a.drop_last(), b) + (if b.contains(a.last()) {
            Seq::empty()
        } else {
            seq![a.last()]
        })
    }
}

/// The part of one volume list that another also holds, order kept.
pub open spec fn seq_keep(a: Seq<Seq<char>>, b: Seq<Seq<char>>) -> Seq<Seq<char>>
    decreases a.len(),
{
    if a.len() == 0 {
        Seq::empty()
    } else {
        seq_keep(a.drop_last(), b) + (if b.contains(a.last()) {
            seq![a.last()]
        } else {
            Seq::empty()
        })
    }
}

pub proof fn lemma_seq_diff_contains(a: Seq<Seq<char>>, b: Seq<Seq<char>>, x: Seq<char>)
    ensures
        seq_diff(a, b).contains(x) <==> (a.contains(x) && !b.contains(x)),
    decreases a.len(),
{
    if a.len() > 0 {
        lemma_seq_diff_contains(a.drop_last(), b, x);
        let d = seq_diff(a, b);
        let left = seq_diff(a.drop_last(), b);
        if d.contains(x) {
            let i = choose|i: int| 0 <= i < d.len() && d[i] == x;
            if i < left.len() {
                assert(left[i] == x);
                assert(left.contains(x));
                assert(a.drop_last().contains(x));
                let j = choose|j: int| 0 <= j < a.drop_last().len() && a.drop_last()[j] == x;
                assert(a[j] == x);
            } else {
                assert(d[i] == a.last());
                assert(a[a.len() - 1] == x);
            }
        }
        if a.contains(x) && !b.contains(x) {
            let j = choose|j: int| 0 <= j < a.len() && a[j] == x;
            if j < a.len() - 1 {
                assert(a.drop_last()[j] == x);
                assert(a.drop_last().contains(x));
                let i = choose|i: int| 0 <= i < left.len() && left[i] == x;
                assert(d[i] == x);
            } else {
                assert(a.last() == x);
                assert(d[d.len() - 1] == x);
            }
        }
    }
}

pub proof fn lemma_seq_keep_contains(a: Seq<Seq<char>>, b: Seq<Seq<char>>, x: Seq<char>)
    ensures
        seq_keep(a, b).contains(x) <==> (a.contains(x) && b.contains(x)),
    decreases a.len(),
{
    if a.len() > 0 {
        lemma_seq_keep_contains(a.drop_last(), b, x);
        let d = seq_keep(a, b);
        let left = seq_keep(a.drop_last(), b);
        if d.contains(x) {
            let i = choose|i: int| 0 <= i < d.len() && d[i] == x;
            if i < left.len() {
                assert(left[i] == x);
                assert(left.contains(x));
                assert(a.drop_last().contains(x));
                let j = choose|j: int| 0 <= j < a.drop_last().len() && a.drop_last()[j] == x;
                assert(a[j] == x);
            } else {
                assert(d[i] == a.last());
                assert(a[a.len() - 1] == x);
            }
        }
        if a.contains(x) && b.contains(x) {
            let j = choose|j: int| 0 <= j < a.len() && a[j] == x;
            if j < a.len() - 1 {
                assert(a.drop_last()[j] == x);
                assert(a.drop_last().contains(x));
                let i = choose|i: int| 0 <= i < left.len() && left[i] == x;
                assert(d[i] == x);
            } else {
                assert(a.last() == x);
                assert(d[d.len() - 1] == x);
            }
        }
    }
}

/// True iff the list holds this name.
pub fn contains_volume(v: &Vec<String>, s: &str) -> (r: bool)
    ensures
        r == v.deep_view().contains(s@),
{
    let n = v.len();
    let mut i: usize = 0;
    while i < n
        invariant
            i <= n,
            n == v@.len(),
            v.deep_view().len() == v@.len(),
            forall|m: int| 0 <= m < i ==> v.deep_view()[m] != s@,
        decreases n - i,
    {
        if crate::index::str_equal(v[i].as_str(), s) {
            proof {
                assert(v.deep_view()[i as int] == s@);
            }
            return true;
        }
        i += 1;
    }
    proof {
        if v.deep_view().contains(s@) {
            let m = choose|m: int| 0 <= m < v.deep_view().len() && v.deep_view()[m] == s@;
        }
    }
    false
}

/// The replicas that answered a HEAD, in their original order.
pub fn rebalance_survivors(volumes: &Vec<String>, heads: &Vec<bool>) -> (r: Vec<String>)
    requires
        heads@.len() == volumes@.len(),
    ensures
        r.deep_view() == keep_flagged(volumes.deep_view(), heads@),
{
    let n = volumes.len();
    let mut r: Vec<String> = Vec::new();
    proof {
        assert(volumes.deep_view().take(0) =~= Seq::<Seq<char>>::empty());
        assert(r.deep_view() =~= keep_flagged(volumes.deep_view().take(0), heads@.take(0)));
    }
    let mut i: usize = 0;
    while i < n
        invariant
            i <= n,
            n == volumes@.len(),
            n == heads@.len(),
            volumes.deep_view().len() == n,
            r.deep_view() == keep_flagged(volumes.deep_view().take(i as int), heads@.take(i as int)),
        decreases n - i,
    {
        let ghost r_dv = r.deep_view();
        if heads[i] {
            r.push(volumes[i].clone());
            proof {
                assert(r.deep_view() =~= r_dv.push(volumes.deep_view()[i as int]));
            }
        }
        proof {
            let vd = volumes.deep_view();
            assert(vd.take(i + 1).drop_last() =~= vd.take(i as int));
            assert(heads@.take(i + 1).take(heads@.take(i + 1).len() - 1) =~= heads@.take(i as int));
            assert(vd.take(i + 1).last() == vd[i as int]);
            assert(heads@.take(i + 1)[vd.take(i + 1).len() - 1] == heads@[i as int]);
            assert(r.deep_view() =~= keep_flagged(vd.take(i + 1), heads@.take(i + 1)));
        }
        i += 1;
    }
    proof {
        assert(volumes.deep_view().take(n as int) =~= volumes.deep_view());
        assert(heads@.take(n as int) =~= heads@);
    }
    r
}

/// The volumes of one list flagged true, in order.
pub open spec fn keep_flagged(vs: Seq<Seq<char>>, fl: Seq<bool>) -> Seq<Seq<char>>
    decreases vs.len(),
{
    if vs.len() == 0 {
        Seq::empty()
    } else {
        keep_flagged(vs.drop_last(), fl.take(vs.len() - 1)) + (if fl[vs.len() - 1] {
            seq![vs.last()]
        } else {
            Seq::empty()
        })
    }
}

/// The names of `a` that `b` does not hold, in order: what rebalance must
/// write to (targets minus survivors) or delete from (survivors minus
/// targets).
pub fn subtract_volumes(a: &Vec<String>, b: &Vec<String>) -> (r: Vec<String>)
    ensures
        r.deep_view() == seq_diff(a.deep_view(), b.deep_view()),
{
    let n = a.len();
    let mut r: Vec<String> = Vec::new();
    proof {
        assert(a.deep_view().take(0) =~= Seq::<Seq<char>>::empty());
        assert(r.deep_view() =~= seq_diff(a.deep_view().take(0), b.deep_view()));
    }
    let mut i: usize = 0;
    while i < n
        invariant
            i <= n,
            n == a@.len(),
            a.deep_view().len() == n,
            r.deep_view() == seq_diff(a.deep_view().take(i as int), b.deep_view()),
        decreases n - i,
    {
        let ghost r_dv = r.deep_view();
        if !contains_volume(b, a[i].as_str()) {
            r.push(a[i].clone());
            proof {
                assert(r.deep_view() =~= r_dv.push(a.deep_view()[i as int]));
            }
        }
        proof {
            let ad = a.deep_view();
            assert(ad.take(i + 1).drop_last() =~= ad.take(i as int));
            assert(ad.take(i + 1).last() == ad[i as int]);
            assert(r.deep_view() =~= seq_diff(ad.take(i + 1), b.deep_view()));
        }
        i += 1;
    }
    proof {
        assert(a.deep_view().take(n as int) =~= a.deep_view());
    }
    r
}

/// The names both lists hold, in the order of `a`.
pub fn intersect_volumes(a: &Vec<String>, b: &Vec<String>) -> (r: Vec<String>)
    ensures
        r.deep_view() == seq_keep(a.deep_view(), b.deep_view()),
{
    let n = a.len();
    let mut r: Vec<String> = Vec::new();
    proof {
        assert(a.deep_view().take(0) =~= Seq::<Seq<char>>::empty());
        assert(r.deep_view() =~= seq_keep(a.deep_view().take(0), b.deep_view()));
    }
    let mut i: usize = 0;
    while i < n
        invariant
            i <= n,
            n == a@.len(),
            a.deep_view().len() == n,
            r.deep_view() == seq_keep(a.deep_view().take(i as int), b.deep_view()),
        decreases n - i,
    {
        let ghost r_dv = r.deep_view();
        if contains_volume(b, a[i].as_str()) {
            r.push(a[i].clone());
            proof {
                assert(r.deep_view() =~= r_dv.push(a.deep_view()[i as int]));
            }
        }
        proof {
            let ad = a.deep_view();
            assert(ad.take(i + 1).drop_last() =~= ad.take(i as int));
            assert(ad.take(i + 1).last() == ad[i as int]);
            assert(r.deep_view() =~= seq_keep(ad.take(i + 1), b.deep_view()));
        }
        i += 1;
    }
    proof {
        assert(a.deep_view().take(n as int) =~= a.deep_view());
    }
    r
}

/// A single-key rebalance task: the key, the replicas its record names,
/// and the placement it should have.
#[derive(Clone)]
pub struct RebalanceRequest {
    pub key: String,
    pub volumes: Vec<String>,
    pub kvolumes: Vec<String>,
}

/// A rebuild walk task: one volume (or sub-volume) and the listing URL to
/// walk under it.
#[derive(Clone)]
pub struct RebuildRequest {
    pub vol: String,
    pub url: String,
}

/// The outcome of opening a REBALANCE request.
pub enum RebalanceBegin {
    Busy,
    Missing,
    Proceed { req: RebalanceRequest },
}

/// Relies on String::from_utf8: it succeeds exactly on valid UTF-8 input,
/// and on success the returned string's UTF-8 encoding is exactly the
/// input bytes.
#[verifier::external_body]
fn bytes_to_string(b: Vec<u8>) -> (r: Option<String>)
    ensures
        (r is Some) == vstd::utf8::valid_utf8(b@),
        r matches Some(st) ==> encode_utf8(st@) == b@,
{
    String::from_utf8(b).ok()
}

/// The replica list after a rebuild merge: the target volumes the key
/// already has, in placement order, then its other replicas.
pub open spec fn merge_replicas(kvols: Seq<Seq<char>>, existing: Seq<Seq<char>>) -> Seq<
    Seq<char>,
> {
    seq_keep(kvols, existing) + seq_diff(existing, kvols)
}

/// Law: a rebuild merge keeps exactly the replicas that were known —
/// every volume of the merged list was in the combined list and the other
/// way round.
pub proof fn lemma_merge_keeps_replicas(
    kvols: Seq<Seq<char>>,
    existing: Seq<Seq<char>>,
    x: Seq<char>,
)
    ensures
        merge_replicas(kvols, existing).contains(x) <==> existing.contains(x),
{
    lemma_seq_keep_contains(kvols, existing, x);
    lemma_seq_diff_contains(existing, kvols, x);
    let merged = merge_replicas(kvols, existing);
    let left = seq_keep(kvols, existing);
    let right = seq_diff(existing, kvols);
    if merged.contains(x) {
        let i = choose|i: int| 0 <= i < merged.len() && merged[i] == x;
        if i < left.len() {
            assert(left[i] == x);
            assert(left.contains(x));
        } else {
            assert(right[i - left.len()] == x);
            assert(right.contains(x));
        }
    }
    if existing.contains(x) {
        if kvols.contains(x) {
            let i = choose|i: int| 0 <= i < left.len() && left[i] == x;
            assert(merged[i] == x);
        } else {
            let i = choose|i: int| 0 <= i < right.len() && right[i] == x;
            assert(merged[left.len() + i] == x);
        }
    }
}

impl Minikeyvalue {
    /// Opens a single-key REBALANCE: 409 when the key is busy, 404 when it
    /// is not live; otherwise hands back the task and keeps the key locked.
    pub fn rebalance_begin(&mut self, key: &str) -> (r: RebalanceBegin)
        requires
            old(self).wf(),
        ensures
            final(self).wf(),
            final(self).config_unchanged(*old(self)),
            final(self).records() == old(self).records(),
            final(self).scan_keys() == old(self).scan_keys(),
            forall|k: Seq<char>|
                k != key@ ==> final(self).key_locked(k) == old(self).key_locked(k),
            (r is Busy) == old(self).key_locked(key@),
            (r is Missing) == (!old(self).key_locked(key@) && !(old(self).stored(key@)
                matches Some(rec) && rec.deleted is No)),
            (r is Missing) ==> !final(self).key_locked(key@),
            r matches RebalanceBegin::Proceed { req } ==> ({
                &&& req.key@ == key@
                &&& old(self).stored(key@) is Some
                &&& req.volumes.deep_view() == old(self).stored(key@).unwrap().rvolumes
                &&& req.kvolumes.deep_view() == old(self).target_placement(key@)
                &&& placement_from(
                    old(self).config_volumes(),
                    key@,
                    old(self).config_subvolumes(),
                    req.kvolumes.deep_view(),
                )
                &&& final(self).key_locked(key@)
            }),
            old(self).all_live_ok() ==> final(self).all_live_ok(),
    {
        if !self.lock_key(key) {
            proof {
                if old(self).all_live_ok() {
                    lemma_same_records_live(*old(self), *self);
                }
            }
            return RebalanceBegin::Busy;
        }
        let rec = self.get_record(key);
        if !matches!(rec.deleted, Deleted::No) {
            self.unlock_key(key);
            proof {
                if old(self).all_live_ok() {
                    lemma_same_records_live(*old(self), *self);
                }
            }
            return RebalanceBegin::Missing;
        }
        let vols = self.volumes.as_slice();
        proof {
            assert(vols.deep_view() =~= self.volumes.deep_view());
        }
        let kvolumes = key_to_volume(key, vols, self.replicas, self.subvolumes);
        proof {
            if old(self).all_live_ok() {
                lemma_same_records_live(*old(self), *self);
            }
        }
        RebalanceBegin::Proceed {
            req: RebalanceRequest { key: key.to_owned(), volumes: rec.rvolumes, kvolumes },
        }
    }

    /// Records a finished rebalance: the key's record now names the
    /// computed placement, stays live, and keeps its hash.
    pub fn rebalance_commit(&mut self, key: &str, kvolumes: Vec<String>) -> (prev: Option<
        String,
    >)
        requires
            old(self).wf(),
            old(self).stored(key@) matches Some(rec) && rec.deleted is No,
            kvolumes.deep_view() == old(self).target_placement(key@),
            placement_from(
                old(self).config_volumes(),
                key@,
                old(self).config_subvolumes(),
                kvolumes.deep_view(),
            ),
            kvolumes@.len() >= 1,
        ensures
            final(self).wf(),
            final(self).config_unchanged(*old(self)),
            forall|k: Seq<char>| final(self).key_locked(k) == old(self).key_locked(k),
            final(self).scan_keys() == old(self).scan_keys(),
            final(self).stored(key@) == Some(
                RecordV {
                    rvolumes: old(self).target_placement(key@),
                    deleted: Deleted::No,
                    hash: old(self).stored(key@).unwrap().hash,
                },
            ),
            final(self).stored(key@).unwrap().rvolumes == old(self).target_placement(key@),
            forall|k: Seq<char>|
                k != key@ ==> final(self).stored(k) == old(self).stored(k),
            old(self).all_live_ok() ==> final(self).all_live_ok(),
    {
        let rec = self.get_record(key);
        proof {
            lemma_placement_clean(
                self.config_volumes(),
                key@,
                self.config_subvolumes(),
                kvolumes.deep_view(),
            );
        }
        let record = Record { rvolumes: kvolumes, deleted: Deleted::No, hash: rec.hash };
        let prev = self.put_record(key, record);
        proof {
            assert forall|k: Seq<char>|
                old(self).all_live_ok() && (#[trigger] self.stored(k)) is Some implies live_ok(
                self.stored(k).unwrap(),
            ) by {
                if k != key@ {
                    assert(self.stored(k) == old(self).stored(k));
                } else {
                    assert(old(self).stored(key@) is Some);
                }
            }
        }
        prev
    }

    /// Closes a REBALANCE request: releases the key; 204 on success, 400
    /// on failure.
    pub fn rebalance_end(&mut self, key: &str, ok: bool) -> (status: u16)
        requires
            old(self).wf(),
        ensures
            final(self).wf(),
            final(self).config_unchanged(*old(self)),
            final(self).records() == old(self).records(),
            final(self).scan_keys() == old(self).scan_keys(),
            !final(self).key_locked(key@),
            forall|k: Seq<char>|
                k != key@ ==> final(self).key_locked(k) == old(self).key_locked(k),
            status == (if ok { 204 as u16 } else { 400 as u16 }),
            old(self).all_live_ok() ==> final(self).all_live_ok(),
    {
        self.unlock_key(key);
        proof {
            if old(self).all_live_ok() {
                lemma_same_records_live(*old(self), *self);
            }
        }
        if ok {
            204
        } else {
            400
        }
    }

    /// Empties the index before a rebuild walks the volumes.
    pub fn rebuild_reset(&mut self)
        requires
            old(self).wf(),
        ensures
            final(self).wf(),
            final(self).config_unchanged(*old(self)),
            final(self).records() == Map::<Seq<char>, Seq<char>>::empty(),
            final(self).scan_keys() == Seq::<Seq<char>>::empty(),
            forall|k: Seq<char>| final(self).key_locked(k) == old(self).key_locked(k),
            forall|k: Seq<char>| final(self).stored(k) is None,
    {
        self.db.clear();
    }

    /// The plan for a GET or HEAD on `key`: a 404 when the record is
    /// absent or deleted and no fallback is configured; otherwise the
    /// replicas to probe — the record's own when it is live, the fallback
    /// server when it is not.
    pub fn get_plan(&self, key: &str) -> (r: GetPlan)
        requires
            self.wf(),
        ensures
            (r is Miss) == (!(self.stored(key@) matches Some(rec) && rec.deleted is No)
                && self.config_fallback().len() == 0),
            r matches GetPlan::Miss { content_md5 } ==> content_md5@ == stored_md5(
                self.stored(key@),
            ),
            r matches GetPlan::Probe { rvolumes, path, content_md5 } ==> ({
                &&& content_md5@ == stored_md5(self.stored(key@))
                &&& path@ == path_of(md5_of(key.spec_bytes()))
                &&& ((self.stored(key@) matches Some(rec) && rec.deleted is No)
                    ==> rvolumes.deep_view() == self.stored(key@).unwrap().rvolumes)
                &&& (!(self.stored(key@) matches Some(rec) && rec.deleted is No) ==> (
                self.config_fallback().len() > 0 && rvolumes.deep_view() == seq![
                    self.config_fallback(),
                ]))
            }),
    {
        let rec = self.get_record(key);
        let live = matches!(rec.deleted, Deleted::No);
        if !live && self.fallback.as_str().unicode_len() == 0 {
            return GetPlan::Miss { content_md5: rec.hash };
        }
        let path = key_to_path(key);
        if live {
            GetPlan::Probe { rvolumes: rec.rvolumes, path, content_md5: rec.hash }
        } else {
            let mut rvolumes: Vec<String> = Vec::new();
            rvolumes.push(self.fallback.clone());
            proof {
                assert(rvolumes.deep_view() =~= seq![self.config_fallback()]);
            }
            GetPlan::Probe { rvolumes, path, content_md5: rec.hash }
        }
    }

    /// Answers `?list` or `?unlinked`: the matching keys in scan order,
    /// cut at `limit` when one is given, with the cursor naming the key a
    /// following page would start at; 403 when more than a million keys
    /// match.
    pub fn list_keys(&self, unlinked: bool, limit: usize) -> (r: Result<ListResponse, u16>)
        requires
            self.wf(),
        ensures
            ({
                let want = if unlinked {
                    Deleted::Soft
                } else {
                    Deleted::No
                };
                let sel = select_keys(self.records(), self.scan_keys(), want);
                match r {
                    Ok(resp) => {
                        &&& sel.len() <= 1000000
                        &&& resp.keys.deep_view() == (if limit == 0 || sel.len() <= limit {
                            sel
                        } else {
                            sel.take(limit as int)
                        })
                        &&& resp.next@ == (if limit > 0 && sel.len() > limit {
                            sel[limit as int]
                        } else {
                            Seq::<char>::empty()
                        })
                    },
                    Err(status) => status == 403 && sel.len() > 1000000,
                }
            }),
    {
        let want = if unlinked {
            Deleted::Soft
        } else {
            Deleted::No
        };
        let n = self.db.len();
        let mut keys: Vec<String> = Vec::new();
        let mut next = String::new();
        let mut count: usize = 0;
        proof {
            assert(self.scan_keys().take(0) =~= Seq::<Seq<char>>::empty());
            assert(keys.deep_view() =~= Seq::<Seq<char>>::empty());
        }
        let mut i: usize = 0;
        while i < n
            invariant
                i <= n,
                self.wf(),
                want == (if unlinked { Deleted::Soft } else { Deleted::No }),
                n == self.scan_keys().len(),
                count == select_keys(self.records(), self.scan_keys().take(i as int), want).len(),
                count <= 1000000,
                keys.deep_view() == ({
                    let part = select_keys(self.records(), self.scan_keys().take(i as int), want);
                    if limit == 0 || part.len() <= limit {
                        part
                    } else {
                        part.take(limit as int)
                    }
                }),
                next@ == ({
                    let part = select_keys(self.records(), self.scan_keys().take(i as int), want);
                    if limit > 0 && part.len() > limit {
                        part[limit as int]
                    } else {
                        Seq::<char>::empty()
                    }
                }),
            decreases n - i,
        {
            let k = self.db.key_at(i);
            let v = self.db.value_at(i);
            let rec = Record::decode(v.as_str());
            let ghost part = select_keys(self.records(), self.scan_keys().take(i as int), want);
            proof {
                let sk = self.scan_keys();
                assert(sk.take(i + 1).drop_last() =~= sk.take(i as int));
                assert(sk.take(i + 1).last() == sk[i as int]);
            }
            if rec.deleted == want {
                if count == 1000000 {
                    proof {
                        lemma_select_monotone(self.records(), self.scan_keys(), want, i + 1);
                    }
                    return Err(403);
                }
                let ghost part2 = select_keys(
                    self.records(),
                    self.scan_keys().take(i + 1),
                    want,
                );
                proof {
                    assert(part2 =~= part.push(self.scan_keys()[i as int]));
                }
                if limit == 0 || count < limit {
                    let ghost keys_dv = keys.deep_view();
                    keys.push(k.clone());
                    proof {
                        assert(keys.deep_view() =~= keys_dv.push(k@));
                        if limit > 0 && part2.len() > limit {
                            assert(part2.take(limit as int) =~= part.take(limit as int));
                        }
                    }
                } else {
                    if count == limit {
                        next = k.clone();
                    }
                    proof {
                        assert(part2.take(limit as int) =~= part.take(limit as int));
                        if count > limit {
                            assert(part2[limit as int] == part[limit as int]);
                        }
                    }
                }
                count = count + 1;
            } else {
                proof {
                    assert(select_keys(self.records(), self.scan_keys().take(i + 1), want)
                        =~= part);
                }
            }
            i += 1;
        }
        proof {
            assert(self.scan_keys().take(n as int) =~= self.scan_keys());
        }
        Ok(ListResponse { next, keys })
    }

    /// The whole-index rebalance plan: one task per stored key, pairing
    /// the replicas its record names with the placement it should have.
    pub fn rebalance_plan(&self) -> (r: Vec<RebalanceRequest>)
        requires
            self.wf(),
        ensures
            r@.len() == self.scan_keys().len(),
            forall|i: int|
                0 <= i < r@.len() ==> ({
                    &&& (#[trigger] r@[i]).key@ == self.scan_keys()[i]
                    &&& self.stored(self.scan_keys()[i]) is Some
                    &&& r@[i].volumes.deep_view() == self.stored(
                        self.scan_keys()[i],
                    ).unwrap().rvolumes
                    &&& r@[i].kvolumes.deep_view() == self.target_placement(
                        self.scan_keys()[i],
                    )
                }),
    {
        let n = self.db.len();
        let mut r: Vec<RebalanceRequest> = Vec::new();
        let mut i: usize = 0;
        while i < n
            invariant
                i <= n,
                self.wf(),
                n == self.scan_keys().len(),
                r@.len() == i,
                forall|m: int|
                    0 <= m < i ==> ({
                        &&& (#[trigger] r@[m]).key@ == self.scan_keys()[m]
                        &&& self.stored(self.scan_keys()[m]) is Some
                        &&& r@[m].volumes.deep_view() == self.stored(
                            self.scan_keys()[m],
                        ).unwrap().rvolumes
                        &&& r@[m].kvolumes.deep_view() == self.target_placement(
                            self.scan_keys()[m],
                        )
                    }),
            decreases n - i,
        {
            let k = self.db.key_at(i);
            let v = self.db.value_at(i);
            let rec = Record::decode(v.as_str());
            let key = k.clone();
            let vols = self.volumes.as_slice();
            proof {
                assert(vols.deep_view() =~= self.volumes.deep_view());
            }
            let kvolumes = key_to_volume(key.as_str(), vols, self.replicas, self.subvolumes);
            r.push(RebalanceRequest { key, volumes: rec.rvolumes, kvolumes });
            proof {
                assert(r@[i as int].key@ == self.scan_keys()[i as int]);
                assert(self.stored(self.scan_keys()[i as int]) is Some);
                assert(r@[i as int].volumes.deep_view() == self.stored(
                    self.scan_keys()[i as int],
                ).unwrap().rvolumes);
                assert(r@[i as int].kvolumes.deep_view() == self.target_placement(
                    self.scan_keys()[i as int],
                ));
            }
            i += 1;
        }
        r
    }
}

/// The hash a response advertises: the stored record's, or nothing.
pub open spec fn stored_md5(st: Option<RecordV>) -> Seq<char> {
    if st is Some {
        st.unwrap().hash
    } else {
        Seq::<char>::empty()
    }
}

/// The key one rebuild merge works on: the listing name's base64 bytes,
/// read as UTF-8 text.
pub open spec fn rebuild_key(name: Seq<char>) -> Seq<char> {
    vstd::utf8::decode_utf8(crate::digest::b64_bytes_of(name))
}

/// One rebuild merge: the listing name is base64 of a digest; its decoded
/// bytes, read as text, key the merged record. The merge succeeds exactly
/// when the name is valid base64 of valid UTF-8 and no other task holds
/// that key; it runs entirely under the key lock, which is released on
/// return. The merged replica list starts with the target volumes the key
/// already has and keeps every other replica, the discovered volume among
/// them; the record is live with no hash, which rebuild cannot recover.
pub fn rebuild(that: &mut Minikeyvalue, vol: &str, name: &str) -> (r: bool)
    requires
        old(that).wf(),
        crate::record::clean_volume(vol@),
    ensures
        final(that).wf(),
        final(that).config_unchanged(*old(that)),
        forall|k: Seq<char>| final(that).key_locked(k) == old(that).key_locked(k),
        r == (crate::digest::b64_valid(name@) && vstd::utf8::valid_utf8(
            crate::digest::b64_bytes_of(name@),
        ) && !old(that).key_locked(rebuild_key(name@))),
        !r ==> final(that).records() == old(that).records() && final(that).scan_keys() == old(that).scan_keys(),
        r ==> ({
            let key = rebuild_key(name@);
            let existing = if old(that).stored(key) is Some {
                old(that).stored(key).unwrap().rvolumes
            } else {
                Seq::<Seq<char>>::empty()
            };
            let combined = if existing.contains(vol@) {
                existing
            } else {
                existing.push(vol@)
            };
            &&& final(that).stored(key) == Some(
                RecordV {
                    rvolumes: merge_replicas(old(that).target_placement(key), combined),
                    deleted: Deleted::No,
                    hash: Seq::<char>::empty(),
                },
            )
            &&& final(that).stored(key).unwrap().rvolumes.contains(vol@)
            &&& (forall|x: Seq<char>|
                existing.contains(x) ==> final(that).stored(key).unwrap().rvolumes.contains(x))
            &&& (forall|k2: Seq<char>|
                k2 != key ==> final(that).stored(k2) == old(that).stored(k2))
            &&& final(that).scan_keys() == (if old(that).records().contains_key(key) {
                old(that).scan_keys()
            } else {
                old(that).scan_keys().insert(
                    lex_position(old(that).scan_keys(), key),
                    key,
                )
            })
        }),
{
    let decoded = match crate::digest::b64_decode(name) {
        Some(d) => d,
        None => {
            return false;
        },
    };
    let key = match bytes_to_string(decoded) {
        Some(k) => k,
        None => {
            return false;
        },
    };
    proof {
        vstd::utf8::encode_utf8_decode_utf8(key@);
        assert(key@ == rebuild_key(name@));
    }
    if !that.lock_key(key.as_str()) {
        return false;
    }
    let rec = that.get_record(key.as_str());
    let existing_vols = if matches!(rec.deleted, Deleted::Hard) {
        Vec::new()
    } else {
        rec.rvolumes
    };
    let ghost existing = existing_vols.deep_view();
    let mut combined = existing_vols;
    if !contains_volume(&combined, vol) {
        combined.push(vol.to_owned());
        proof {
            assert(combined.deep_view() =~= existing.push(vol@));
        }
    }
    let vols_slice = that.volumes.as_slice();
    proof {
        assert(vols_slice.deep_view() =~= that.volumes.deep_view());
    }
    let kvolumes = key_to_volume(key.as_str(), vols_slice, that.replicas, that.subvolumes);
    let mut merged = intersect_volumes(&kvolumes, &combined);
    let mut rest = subtract_volumes(&combined, &kvolumes);
    let ghost merged_left = merged.deep_view();
    let ghost rest_dv = rest.deep_view();
    merged.append(&mut rest);
    proof {
        assert(merged.deep_view() =~= merged_left + rest_dv);
        assert(merged.deep_view() == merge_replicas(kvolumes.deep_view(), combined.deep_view()));
        lemma_merge_keeps_replicas(kvolumes.deep_view(), combined.deep_view(), vol@);
        assert(combined.deep_view().contains(vol@)) by {
            if existing.contains(vol@) {
            } else {
                assert(combined.deep_view().last() == vol@);
            }
        }
        assert forall|x: Seq<char>| existing.contains(x) implies combined.deep_view().contains(
            x,
        ) by {
            let i = choose|i: int| 0 <= i < existing.len() && existing[i] == x;
            assert(combined.deep_view()[i] == x);
        }
        assert forall|x: Seq<char>| existing.contains(x) implies merged.deep_view().contains(
            x,
        ) by {
            lemma_merge_keeps_replicas(kvolumes.deep_view(), combined.deep_view(), x);
        }
        assert forall|m: int|
            0 <= m < merged.deep_view().len() implies clean_volume(
            #[trigger] merged.deep_view()[m],
        ) by {
            let x = merged.deep_view()[m];
            assert(merged.deep_view().contains(x));
            lemma_merge_keeps_replicas(kvolumes.deep_view(), combined.deep_view(), x);
            let i = choose|i: int|
                0 <= i < combined.deep_view().len() && combined.deep_view()[i] == x;
            assert(clean_volume(combined.deep_view()[i]));
        }
        assert(merged.deep_view().contains(vol@));
        assert(merged.deep_view().len() >= 1) by {
            let i = choose|i: int|
                0 <= i < merged.deep_view().len() && merged.deep_view()[i] == vol@;
        }
    }
    let ghost kk = key@;
    let ghost combined_dv = combined.deep_view();
    let ghost kv_dv = kvolumes.deep_view();
    let record = Record { rvolumes: merged, deleted: Deleted::No, hash: String::new() };
    let _ = that.put_record(key.as_str(), record);
    that.unlock_key(key.as_str());
    proof {
        assert(encode_utf8(kk) == crate::digest::b64_bytes_of(name@));
        assert(kv_dv == old(that).target_placement(kk));
        let existing_spec = if old(that).stored(kk) is Some {
            old(that).stored(kk).unwrap().rvolumes
        } else {
            Seq::<Seq<char>>::empty()
        };
        assert(existing == existing_spec);
        let combined_spec = if existing_spec.contains(vol@) {
            existing_spec
        } else {
            existing_spec.push(vol@)
        };
        assert(combined_dv == combined_spec);
        assert(that.stored(kk) == Some(
            RecordV {
                rvolumes: merge_replicas(old(that).target_placement(kk), combined_dv),
                deleted: Deleted::No,
                hash: Seq::<char>::empty(),
            },
        ));
        assert(that.stored(kk).unwrap().rvolumes.contains(vol@));
        assert forall|x: Seq<char>| existing.contains(x) implies that.stored(
            kk,
        ).unwrap().rvolumes.contains(x) by {
            lemma_merge_keeps_replicas(kv_dv, combined_dv, x);
            let i = choose|i: int| 0 <= i < existing.len() && existing[i] == x;
            assert(combined_dv[i] == x);
            assert(combined_dv.contains(x));
        }
        assert forall|k2: Seq<char>| k2 != kk implies that.stored(k2) == old(that).stored(
            k2,
        ) by {}
    }
    true
}

/// Law: for any key an observer sees exactly one of three states —
/// absent, live, or soft-deleted. `stored` is a function of the index, so
/// the states are mutually exclusive, and a hard-deleted record is never
/// stored, so that state is never observed, in a GET or in a listing.
pub proof fn lemma_one_observable_state(m: &Minikeyvalue, k: Seq<char>)
    requires
        m.wf(),
    ensures
        m.stored(k) is None || (m.stored(k) matches Some(r) && (r.deleted is No
            || r.deleted is Soft)),
{
}

/// Law: every live record carries a 32-character hash and a non-empty
/// replica list, in any state the client operations can reach.
pub proof fn lemma_live_record_complete(m: &Minikeyvalue, k: Seq<char>)
    requires
        m.wf(),
        m.all_live_ok(),
        m.stored(k) matches Some(r) && r.deleted is No,
    ensures
        m.stored(k).unwrap().hash.len() == 32,
        m.stored(k).unwrap().rvolumes.len() >= 1,
{
    assert(m.stored(k) is Some);
}

/// Law: the scan lists exactly the stored keys, each once, in strictly
/// ascending order. With the `scan_keys` clauses of the mutating
/// operations and `lemma_list_complete`, this makes a listing complete:
/// the keys a LIST returns are exactly the stored keys in the wanted
/// state, in order.
pub proof fn lemma_scan_lists_records(m: &Minikeyvalue)
    requires
        m.wf(),
    ensures
        forall|k: Seq<char>|
            m.records().contains_key(k) <==> #[trigger] m.scan_keys().contains(k),
        forall|i: int, j: int|
            0 <= i < j < m.scan_keys().len() ==> crate::index::lex_lt(
                #[trigger] m.scan_keys()[i],
                #[trigger] m.scan_keys()[j],
            ),
{
    m.db.lemma_scan_order();
}

/// Law: a listing is complete — every scanned key whose record is in the
/// wanted state is selected.
pub proof fn lemma_list_complete(
    m: Map<Seq<char>, Seq<char>>,
    keys: Seq<Seq<char>>,
    want: Deleted,
    k: Seq<char>,
)
    requires
        keys.contains(k),
        m.contains_key(k),
        decode_record(m[k]).deleted == want,
    ensures
        select_keys(m, keys, want).contains(k),
    decreases keys.len(),
{
    let sel = select_keys(m, keys, want);
    if keys.last() == k {
        assert(sel[sel.len() - 1] == k);
    } else {
        let i = choose|i: int| 0 <= i < keys.len() && keys[i] == k;
        assert(keys.drop_last()[i] == k);
        assert(keys.drop_last().contains(k));
        lemma_list_complete(m, keys.drop_last(), want, k);
        let left = select_keys(m, keys.drop_last(), want);
        let j = choose|j: int| 0 <= j < left.len() && left[j] == k;
        assert(sel[j] == k);
    }
}

} // verus!
