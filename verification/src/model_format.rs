//! The parts of a CRFsuite model file that tagging reads, and a check that
//! every one of them is in place.
//!
//! A model file starts with a 48-byte header:
//!
//! | bytes | field |
//! | ----- | ----- |
//! | 0..4 | magic `lCRF` |
//! | 20..24 | number of labels |
//! | 28..32 | offset of the feature chunk |
//! | 32..36 | offset of the label dictionary |
//! | 36..40 | offset of the attribute dictionary |
//! | 40..44 | offset of the label reference chunk |
//! | 44..48 | offset of the attribute reference chunk |
//!
//! All integers are little-endian `u32`. The feature chunk holds, after a
//! 12-byte chunk header, 20 bytes per feature (type, source, target, weight).
//! A reference chunk holds, after its 12-byte header, one offset per label (or
//! attribute) to a list `[count, feature id...]`. The two dictionaries are
//! constant quark databases (`CQDB`): a 24-byte header, 256 hash table
//! references `(offset, bucket count)`, buckets `(hash, record offset)`,
//! records `(id, key size, key, NUL)`, and a backward array of record offsets
//! indexed by id. Offsets inside a dictionary count from its first byte.
//!
//! [`model_ok`] holds when every read the tagger makes lands inside the file
//! and yields a usable value: every label has an ASCII name; every feature a
//! list names is complete, targets a label and has a finite weight; every
//! record a bucket of the attribute dictionary points at is complete, and its
//! attribute has a complete list; every non-empty hash table has an empty
//! bucket (so that a lookup ends); and each dictionary's record count fits in
//! a `u32`. Such a model is read, and tags any item sequence, without error.

use vstd::prelude::*;

verus! {

/// The tagger keeps label-by-label score tables of 8-byte floats (one with 4
/// slots to spare); their size in bytes must fit an `isize`.
pub open spec fn labels_fit(n: int) -> bool {
    n * n + 4 <= isize::MAX / 8
}

/// The little-endian `u32` at byte `i` of `m`.
pub open spec fn u32_at(m: Seq<u8>, i: int) -> int {
    m[i] as int + 256 * (m[i + 1] as int) + 65536 * (m[i + 2] as int) + 16777216 * (m[i + 3] as int)
}

/// Reads the little-endian `u32` at byte `i`.
pub fn read_u32(m: &[u8], i: usize) -> (v: u32)
    requires
        i + 4 <= m@.len(),
    ensures
        v == u32_at(m@, i as int),
{
    let b0: u32 = m[i] as u32;
    let b1: u32 = m[i + 1] as u32;
    let b2: u32 = m[i + 2] as u32;
    let b3: u32 = m[i + 3] as u32;
    b0 + 256 * b1 + 65536 * b2 + 16777216 * b3
}

// ------------------------------------------------------------------ header

pub open spec fn num_labels(m: Seq<u8>) -> int {
    u32_at(m, 20)
}

pub open spec fn off_features(m: Seq<u8>) -> int {
    u32_at(m, 28)
}

pub open spec fn off_labels(m: Seq<u8>) -> int {
    u32_at(m, 32)
}

pub open spec fn off_attrs(m: Seq<u8>) -> int {
    u32_at(m, 36)
}

pub open spec fn off_label_refs(m: Seq<u8>) -> int {
    u32_at(m, 40)
}

pub open spec fn off_attr_refs(m: Seq<u8>) -> int {
    u32_at(m, 44)
}

/// Longer than the header, and starting with `lCRF`.
pub open spec fn header_ok(m: Seq<u8>) -> bool {
    &&& m.len() > 48
    &&& m[0] == 108u8 && m[1] == 67u8 && m[2] == 82u8 && m[3] == 70u8
}

// -------------------------------------------------------- features and refs

/// The little-endian `f64` at byte `i` is finite: its exponent bits (the low
/// seven of byte `i + 7`, the high four of byte `i + 6`) are not all set.
pub open spec fn finite_f64_at(m: Seq<u8>, i: int) -> bool {
    !(m[i + 7] % 128 == 127 && m[i + 6] / 16 == 15)
}

/// Feature `fid` lies inside the file, targets a label, and has a finite
/// weight.
pub open spec fn feature_ok(m: Seq<u8>, fid: int) -> bool {
    let at = off_features(m) + 12 + 20 * fid;
    at + 20 <= m.len() && u32_at(m, at + 8) < num_labels(m) && finite_f64_at(m, at + 12)
}

/// The `r`-th feature id of the list at `o`.
pub open spec fn listed_fid(m: Seq<u8>, o: int, r: int) -> int {
    u32_at(m, o + 4 + 4 * r)
}

/// The list at `o` lies inside the file and each feature it names is fine.
pub open spec fn list_ok(m: Seq<u8>, o: int) -> bool {
    &&& o + 4 <= m.len()
    &&& o + 4 + 4 * u32_at(m, o) <= m.len()
    &&& forall|r: int| 0 <= r < u32_at(m, o) ==> #[trigger] feature_ok(m, listed_fid(m, o, r))
}

/// Entry `id` of the reference chunk at `chunk` lies inside the file and
/// points at a fine feature list.
pub open spec fn refs_ok(m: Seq<u8>, chunk: int, id: int) -> bool {
    let slot = chunk + 12 + 4 * id;
    slot + 4 <= m.len() && list_ok(m, u32_at(m, slot))
}

// -------------------------------------------------------------- dictionaries

/// The `u32` at byte `i` of the dictionary starting at `base`.
pub open spec fn db_u32(m: Seq<u8>, base: int, i: int) -> int {
    u32_at(m, base + i)
}

pub open spec fn db_len(m: Seq<u8>, base: int) -> int {
    m.len() - base
}

pub open spec fn table_offset(m: Seq<u8>, base: int, t: int) -> int {
    db_u32(m, base, 24 + 8 * t)
}

pub open spec fn table_num(m: Seq<u8>, base: int, t: int) -> int {
    db_u32(m, base, 28 + 8 * t)
}

pub open spec fn bwd_size(m: Seq<u8>, base: int) -> int {
    db_u32(m, base, 16)
}

pub open spec fn bwd_offset(m: Seq<u8>, base: int) -> int {
    db_u32(m, base, 20)
}

/// Table `t` is used (a non-zero offset) and has buckets.
pub open spec fn table_used(m: Seq<u8>, base: int, t: int) -> bool {
    table_offset(m, base, t) > 0 && table_num(m, base, t) > 0
}

/// A used table lies inside the dictionary.
pub open spec fn table_fits(m: Seq<u8>, base: int, t: int) -> bool {
    table_offset(m, base, t) > 0 ==> table_offset(m, base, t) + 8 * table_num(m, base, t) <= db_len(
        m,
        base,
    )
}

/// The record offset in bucket `k` of table `t`.
pub open spec fn bucket_offset(m: Seq<u8>, base: int, t: int, k: int) -> int {
    db_u32(m, base, table_offset(m, base, t) + 8 * k + 4)
}

/// Half the bucket counts of the first `t` table references, summed: the
/// record count the reader adds up, in a `u32`, over all 256 references
/// (those with offset 0 included).
pub open spec fn record_count(m: Seq<u8>, base: int, t: int) -> int
    decreases t,
{
    if t <= 0 {
        0
    } else {
        record_count(m, base, t - 1) + table_num(m, base, t - 1) / 2
    }
}

/// A dictionary header the reader accepts: big enough for the header and
/// the table references, the magic `CQDB`, the byte-order mark, every used
/// table and the backward array inside the dictionary, and a record count
/// that fits in a `u32`.
pub open spec fn cqdb_ok(m: Seq<u8>, base: int) -> bool {
    &&& 0 <= base <= m.len()
    &&& db_len(m, base) >= 2072
    &&& m[base] == 67u8 && m[base + 1] == 81u8 && m[base + 2] == 68u8 && m[base + 3] == 66u8
    &&& db_u32(m, base, 12) == 0x6244_5371
    &&& forall|t: int| 0 <= t < 256 ==> #[trigger] table_fits(m, base, t)
    &&& record_count(m, base, 256) <= 0xffff_ffff
    &&& bwd_offset(m, base) > 0 ==> bwd_offset(m, base) + 4 * bwd_size(m, base) <= db_len(m, base)
}

/// The dictionary starting at `base` gives identifier `id` an ASCII name
/// (possibly empty: the stored size counts the closing NUL).
pub open spec fn name_ok(m: Seq<u8>, base: int, id: int) -> bool {
    let b = bwd_offset(m, base);
    let rec = db_u32(m, base, b + 4 * id);
    let size = db_u32(m, base, rec + 4);
    &&& b > 0
    &&& id < bwd_size(m, base)
    &&& rec > 0
    &&& rec + 8 <= db_len(m, base)
    &&& size >= 1
    &&& rec + 7 + size <= db_len(m, base)
    &&& forall|j: int| rec + 8 <= j < rec + 7 + size ==> #[trigger] m[base + j] < 128u8
}

/// A lookup in table `t` ends: a used table has an empty bucket.
pub open spec fn probe_ends(m: Seq<u8>, base: int, t: int) -> bool {
    table_used(m, base, t) ==> exists|k: int|
        0 <= k < table_num(m, base, t) && #[trigger] bucket_offset(m, base, t, k) == 0
}

/// Bucket `k` of table `t` is empty, or points at a complete record (id, key
/// size, key) whose id has fine references.
pub open spec fn bucket_ok(m: Seq<u8>, base: int, t: int, k: int) -> bool {
    let rec = bucket_offset(m, base, t, k);
    rec > 0 ==> {
        &&& rec + 8 <= db_len(m, base)
        &&& rec + 7 + db_u32(m, base, rec + 4) <= db_len(m, base)
        &&& refs_ok(m, off_attr_refs(m), db_u32(m, base, rec))
    }
}

/// Every lookup in table `t` of the attribute dictionary ends, and whatever
/// it returns has fine references.
pub open spec fn attr_table_ok(m: Seq<u8>, base: int, t: int) -> bool {
    &&& probe_ends(m, base, t)
    &&& table_used(m, base, t) ==> forall|k: int|
        0 <= k < table_num(m, base, t) ==> #[trigger] bucket_ok(m, base, t, k)
}

// -------------------------------------------------------------------- model

/// Everything tagging reads is in place (see the module documentation).
pub open spec fn model_ok(m: Seq<u8>) -> bool {
    &&& header_ok(m)
    &&& 1 <= num_labels(m)
    &&& labels_fit(num_labels(m))
    &&& cqdb_ok(m, off_labels(m))
    &&& cqdb_ok(m, off_attrs(m))
    &&& forall|id: int| 0 <= id < num_labels(m) ==> #[trigger] name_ok(m, off_labels(m), id)
    &&& forall|i: int| 0 <= i < num_labels(m) ==> #[trigger] refs_ok(m, off_label_refs(m), i)
    &&& forall|t: int| 0 <= t < 256 ==> #[trigger] attr_table_ok(m, off_attrs(m), t)
}


// -------------------------------------------------------------------- check

fn feature_ok_exec(m: &[u8], fid: u32) -> (r: bool)
    requires
        m@.len() > 48,
    ensures
        r == feature_ok(m@, fid as int),
{
    let len = m.len() as u64;
    let at: u64 = read_u32(m, 28) as u64 + 12 + 20 * (fid as u64);
    if at + 20 > len {
        return false;
    }
    let w = (at + 12) as usize;
    let finite = !(m[w + 7] % 128 == 127 && m[w + 6] / 16 == 15);
    read_u32(m, (at + 8) as usize) < read_u32(m, 20) && finite
}

fn list_ok_exec(m: &[u8], o: u32) -> (r: bool)
    requires
        m@.len() > 48,
    ensures
        r == list_ok(m@, o as int),
{
    let len = m.len() as u64;
    if o as u64 + 4 > len {
        return false;
    }
    let n = read_u32(m, o as usize);
    if o as u64 + 4 + 4 * (n as u64) > len {
        return false;
    }
    let mut r: u32 = 0;
    while r < n
        invariant
            m@.len() > 48,
            len == m@.len(),
            m@.len() <= usize::MAX,
            r <= n,
            n == u32_at(m@, o as int),
            o + 4 + 4 * n <= m@.len(),
            forall|q: int| 0 <= q < r ==> #[trigger] feature_ok(m@, listed_fid(m@, o as int, q)),
        decreases n - r,
    {
        let fid = read_u32(m, (o as u64 + 4 + 4 * (r as u64)) as usize);
        assert(fid == listed_fid(m@, o as int, r as int));
        if !feature_ok_exec(m, fid) {
            return false;
        }
        r = r + 1;
    }
    true
}

fn refs_ok_exec(m: &[u8], chunk: u32, id: u32) -> (r: bool)
    requires
        m@.len() > 48,
    ensures
        r == refs_ok(m@, chunk as int, id as int),
{
    let slot: u64 = chunk as u64 + 12 + 4 * (id as u64);
    if slot + 4 > m.len() as u64 {
        return false;
    }
    list_ok_exec(m, read_u32(m, slot as usize))
}

fn cqdb_ok_exec(m: &[u8], base: u32) -> (r: bool)
    ensures
        r == cqdb_ok(m@, base as int),
{
    let len = m.len() as u64;
    let b = base as u64;
    if b > len || len - b < 2072 {
        return false;
    }
    let bu = base as usize;
    if !(m[bu] == 67u8 && m[bu + 1] == 81u8 && m[bu + 2] == 68u8 && m[bu + 3] == 66u8) {
        return false;
    }
    if read_u32(m, bu + 12) != 0x6244_5371u32 {
        return false;
    }
    let dblen = len - b;
    let mut count: u64 = 0;
    let mut t: u64 = 0;
    while t < 256
        invariant
            len == m@.len(),
            m@.len() <= usize::MAX,
            b == base,
            bu == base,
            dblen == db_len(m@, base as int),
            dblen >= 2072,
            b + 2072 <= len,
            t <= 256,
            count == record_count(m@, base as int, t as int),
            count <= t * 0x8000_0000,
            forall|q: int| 0 <= q < t ==> #[trigger] table_fits(m@, base as int, q),
        decreases 256 - t,
    {
        let off = read_u32(m, bu + 24 + 8 * (t as usize)) as u64;
        let num = read_u32(m, bu + 28 + 8 * (t as usize)) as u64;
        assert(off == table_offset(m@, base as int, t as int));
        assert(num == table_num(m@, base as int, t as int));
        if off > 0 && off + 8 * num > dblen {
            assert(!table_fits(m@, base as int, t as int));
            return false;
        }
        count = count + num / 2;
        t = t + 1;
    }
    if count > 0xffff_ffff {
        return false;
    }
    let bwd_off = read_u32(m, bu + 20) as u64;
    let bwd_len = read_u32(m, bu + 16) as u64;
    if bwd_off > 0 && bwd_off + 4 * bwd_len > dblen {
        return false;
    }
    true
}

#[verifier::loop_isolation(false)]
fn name_ok_exec(m: &[u8], base: u32, id: u32) -> (r: bool)
    requires
        cqdb_ok(m@, base as int),
    ensures
        r == name_ok(m@, base as int, id as int),
{
    let len = m.len() as u64;
    let b = base as u64;
    let dblen = len - b;
    let bwd = read_u32(m, base as usize + 20) as u64;
    if bwd == 0 {
        return false;
    }
    if id as u64 >= read_u32(m, base as usize + 16) as u64 {
        return false;
    }
    let rec = read_u32(m, (b + bwd + 4 * (id as u64)) as usize) as u64;
    if rec == 0 || rec + 8 > dblen {
        return false;
    }
    let size = read_u32(m, (b + rec + 4) as usize) as u64;
    if size < 1 || rec + 7 + size > dblen {
        return false;
    }
    let mut j: u64 = rec + 8;
    while j < rec + 7 + size
        invariant
            len == m@.len(),
            m@.len() <= usize::MAX,
            b == base,
            dblen == db_len(m@, base as int),
            rec + 8 <= j <= rec + 7 + size,
            rec + 7 + size <= dblen,
            forall|q: int| rec + 8 <= q < j ==> #[trigger] m@[base + q] < 128u8,
        decreases rec + 7 + size - j,
    {
        if m[(b + j) as usize] >= 128u8 {
            assert(!(m@[base + j as int] < 128u8));
            return false;
        }
        j = j + 1;
    }
    true
}

fn attr_table_ok_exec(m: &[u8], base: u32, t: u32) -> (r: bool)
    requires
        m@.len() > 48,
        cqdb_ok(m@, base as int),
        t < 256,
    ensures
        r == attr_table_ok(m@, base as int, t as int),
{
    let len = m.len() as u64;
    let b = base as u64;
    let dblen = len - b;
    let off = read_u32(m, base as usize + 24 + 8 * (t as usize)) as u64;
    let num = read_u32(m, base as usize + 28 + 8 * (t as usize)) as u64;
    assert(off == table_offset(m@, base as int, t as int));
    assert(num == table_num(m@, base as int, t as int));
    if off == 0 || num == 0 {
        return true;
    }
    assert(table_fits(m@, base as int, t as int));
    let chunk = read_u32(m, 44);
    let mut found = false;
    let mut k: u64 = 0;
    while k < num
        invariant
            m@.len() > 48,
            len == m@.len(),
            m@.len() <= usize::MAX,
            b == base,
            dblen == db_len(m@, base as int),
            off == table_offset(m@, base as int, t as int),
            num == table_num(m@, base as int, t as int),
            off > 0,
            off + 8 * num <= dblen,
            chunk == off_attr_refs(m@),
            k <= num,
            forall|q: int| 0 <= q < k ==> #[trigger] bucket_ok(m@, base as int, t as int, q),
            found <==> exists|q: int|
                0 <= q < k && #[trigger] bucket_offset(m@, base as int, t as int, q) == 0,
        decreases num - k,
    {
        let rec = read_u32(m, (b + off + 8 * k + 4) as usize) as u64;
        assert(rec == bucket_offset(m@, base as int, t as int, k as int));
        if rec == 0 {
            found = true;
        } else {
            if rec + 8 > dblen {
                assert(!bucket_ok(m@, base as int, t as int, k as int));
                return false;
            }
            let key_size = read_u32(m, (b + rec + 4) as usize) as u64;
            if rec + 7 + key_size > dblen {
                assert(!bucket_ok(m@, base as int, t as int, k as int));
                return false;
            }
            let v = read_u32(m, (b + rec) as usize);
            if !refs_ok_exec(m, chunk, v) {
                assert(!bucket_ok(m@, base as int, t as int, k as int));
                return false;
            }
        }
        assert(bucket_ok(m@, base as int, t as int, k as int));
        k = k + 1;
    }
    found
}

/// Whether `m` is a model [`model_ok`] accepts.
pub fn model_ok_exec(m: &[u8]) -> (r: bool)
    ensures
        r == model_ok(m@),
{
    if m.len() <= 48 {
        return false;
    }
    if !(m[0] == 108u8 && m[1] == 67u8 && m[2] == 82u8 && m[3] == 70u8) {
        return false;
    }
    let labels = read_u32(m, 20);
    if labels < 1 {
        return false;
    }
    let wide = labels as u128;
    assert(wide * wide <= 0xffff_ffff * 0xffff_ffff) by (nonlinear_arith)
        requires
            wide <= 0xffff_ffff,
    ;
    if wide * wide + 4 > (isize::MAX as u128) / 8 {
        return false;
    }
    let names = read_u32(m, 32);
    let attrs = read_u32(m, 36);
    if !cqdb_ok_exec(m, names) || !cqdb_ok_exec(m, attrs) {
        return false;
    }
    let refs = read_u32(m, 40);
    let mut i: u32 = 0;
    while i < labels
        invariant
            header_ok(m@),
            labels == num_labels(m@),
            names == off_labels(m@),
            refs == off_label_refs(m@),
            cqdb_ok(m@, names as int),
            i <= labels,
            forall|q: int| 0 <= q < i ==> #[trigger] name_ok(m@, names as int, q),
            forall|q: int| 0 <= q < i ==> #[trigger] refs_ok(m@, refs as int, q),
        decreases labels - i,
    {
        if !name_ok_exec(m, names, i) {
            return false;
        }
        if !refs_ok_exec(m, refs, i) {
            return false;
        }
        i = i + 1;
    }
    let mut t: u32 = 0;
    while t < 256
        invariant
            header_ok(m@),
            attrs == off_attrs(m@),
            cqdb_ok(m@, attrs as int),
            t <= 256,
            forall|q: int| 0 <= q < t ==> #[trigger] attr_table_ok(m@, attrs as int, q),
        decreases 256 - t,
    {
        if !attr_table_ok_exec(m, attrs, t) {
            return false;
        }
        t = t + 1;
    }
    true
}

} // verus!
