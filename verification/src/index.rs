//! The MinHash index: signature computation, the inverted band-bucket table,
//! the exact-match records, and the approximate-nearest-neighbor query
//! pipeline with exact Jaccard re-scoring.
//!
//! The index handle owns its two tables directly; a persistence layer can
//! mirror every mutation, since each operation's contract pins exactly which
//! rows are created and removed.

use crate::hash::{calculate_hash, calculate_hash_str, fold_hash_of, line_hash_of, stream_prefix, wy_stream, WYHASH_SEED};
use crate::options::{spec_best_bands, spec_default_options, spec_target_fp, MinhashOptions};
use crate::sim::{
    contains_elem, hit_less, hit_lt, jaccard_den, jaccard_num, jaccard_similarity,
    lemma_hit_lt_trans, meets_threshold, spec_meets_threshold, Ratio, Similarity,
};
use vstd::arithmetic::div_mod::lemma_fundamental_div_mod;
use vstd::prelude::*;
use vstd::seq_lib::*;

verus! {

/// Failures of index creation and use that are not storage failures.
#[derive(Clone, Copy, Debug)]
pub enum MinhashError {
    /// The band count does not evenly divide the hash count, or a new index
    /// was created with neither an explicit band count nor a target
    /// similarity to derive one from.
    ConfigurationError,
}

/// One inverted-index row: band number `tid` of document `did`, folded to
/// the bucket key `val`. Documents sharing `(tid, val)` are LSH candidates.
#[derive(Clone, Copy, Debug)]
pub struct TableEntry {
    /// Which band this row belongs to.
    pub tid: i32,
    /// The folded hash of that band's signature slice.
    pub val: i32,
    /// The document this row points back to.
    pub did: u64,
}

/// The exact-match record: one document's token set, kept only for exact
/// Jaccard re-scoring.
#[derive(Debug)]
pub struct DataEntry {
    /// The document id; at most one live record per id.
    pub did: u64,
    /// The tokens, free of duplicates.
    pub eles: Vec<i32>,
}

fn clone_tokens(v: &Vec<i32>) -> (r: Vec<i32>)
    ensures
        r@ == v@,
{
    let mut out: Vec<i32> = Vec::new();
    let mut i: usize = 0;
    while i < v.len()
        invariant
            i <= v@.len(),
            out@ == v@.subrange(0, i as int),
        decreases v@.len() - i,
    {
        out.push(v[i]);
        proof {
            assert(out@ =~= v@.subrange(0, i + 1));
        }
        i += 1;
    }
    proof {
        assert(v@.subrange(0, v@.len() as int) =~= v@);
    }
    out
}

impl Clone for DataEntry {
    /// Clones the record; the copy holds the same id and the same tokens.
    fn clone(&self) -> (r: Self)
        ensures
            r.did == self.did,
            r.eles@ == self.eles@,
    {
        DataEntry { did: self.did, eles: clone_tokens(&self.eles) }
    }
}

/// One grouped candidate from the bucket scan: the document, its record, and
/// how many of the query's bands it shares.
#[derive(Debug)]
pub struct AnnResultEntry {
    /// The candidate document.
    pub _id: u64,
    /// Its exact-match record, for re-scoring.
    pub data: DataEntry,
    /// How many bands of the query this document collides with.
    pub count: i32,
}

/// Round `i` of the private stream of element `e`, reinterpreted as `i32`.
pub open spec fn stream_i32(e: i32, i: int) -> i32 {
    wy_stream(e as u64, i) as i32
}

/// The minimum of two signature values.
pub open spec fn min_i32(a: i32, b: i32) -> i32 {
    if a <= b {
        a
    } else {
        b
    }
}

/// Round `i` of the signature restricted to the first `j` elements: the
/// running minimum of their streams at round `i`.
pub open spec fn spec_sig_upto(eles: Seq<i32>, i: int, j: int) -> i32
    decreases j,
{
    if j <= 1 {
        stream_i32(eles[0], i)
    } else {
        min_i32(spec_sig_upto(eles, i, j - 1), stream_i32(eles[j - 1], i))
    }
}

/// Round `i` of the MinHash signature of `eles`: the minimum over all
/// elements of round `i` of each element's own deterministic stream.
pub open spec fn spec_sig_at(eles: Seq<i32>, i: int) -> i32 {
    spec_sig_upto(eles, i, eles.len() as int)
}

/// The whole `n`-round signature of `eles`.
pub open spec fn spec_signature(eles: Seq<i32>, n: int) -> Seq<i32> {
    Seq::new(n as nat, |i: int| spec_sig_at(eles, i))
}

/// Band `j` of a signature with `r` rounds per band: the fold of its `j`-th
/// contiguous chunk.
pub open spec fn spec_band_of(sig: Seq<i32>, r: int, j: int) -> i32 {
    fold_hash_of(WYHASH_SEED, sig.subrange(j * r, (j + 1) * r))
}

/// All `b` band values of `eles` under an `n`-round configuration.
pub open spec fn spec_bands(eles: Seq<i32>, n: int, b: int) -> Seq<i32> {
    Seq::new(b as nat, |j: int| spec_band_of(spec_signature(eles, n), n / b, j))
}

/// `s` with every later duplicate removed: the first occurrence of each token
/// is kept, in order.
pub open spec fn spec_dedup(s: Seq<i32>) -> Seq<i32>
    decreases s.len(),
{
    if s.len() == 0 {
        Seq::empty()
    } else {
        let pre = spec_dedup(s.drop_last());
        if pre.contains(s.last()) {
            pre
        } else {
            pre.push(s.last())
        }
    }
}

/// Deduplication keeps the set of tokens, removes duplicates, and never
/// lengthens the sequence; a nonempty sequence stays nonempty.
pub proof fn lemma_dedup_props(s: Seq<i32>)
    ensures
        spec_dedup(s).no_duplicates(),
        spec_dedup(s).to_set() == s.to_set(),
        spec_dedup(s).len() <= s.len(),
        s.len() > 0 ==> spec_dedup(s).len() > 0,
    decreases s.len(),
{
    if s.len() == 0 {
        assert(spec_dedup(s).to_set() =~= s.to_set());
    } else {
        let pre = s.drop_last();
        let x = s.last();
        lemma_dedup_props(pre);
        let d = spec_dedup(s);
        let dp = spec_dedup(pre);
        assert(s.to_set() =~= pre.to_set().insert(x)) by {
            assert forall|y: i32| s.to_set().contains(y) implies pre.to_set().contains(y) || y == x by {
                let k = choose|k: int| 0 <= k < s.len() && s[k] == y;
                if k < s.len() - 1 {
                    assert(pre[k] == y);
                }
            }
            assert forall|y: i32| pre.to_set().contains(y) implies s.to_set().contains(y) by {
                let k = choose|k: int| 0 <= k < pre.len() && pre[k] == y;
                assert(s[k] == y);
            }
            assert(s[s.len() - 1] == x);
            assert(s.to_set().contains(x));
        }
        if dp.contains(x) {
            assert(d.to_set() =~= pre.to_set().insert(x)) by {
                assert(dp.to_set().contains(x));
            }
        } else {
            assert(d =~= dp.push(x));
            assert(d.to_set() =~= dp.to_set().insert(x)) by {
                assert forall|y: i32| d.to_set().contains(y) implies dp.to_set().contains(y) || y
                    == x by {
                    let k = choose|k: int| 0 <= k < d.len() && d[k] == y;
                    if k < d.len() - 1 {
                        assert(dp[k] == y);
                    }
                }
                assert forall|y: i32| dp.to_set().contains(y) implies d.to_set().contains(y) by {
                    let k = choose|k: int| 0 <= k < dp.len() && dp[k] == y;
                    assert(d[k] == y);
                }
                assert(d[d.len() - 1] == x);
                assert(d.to_set().contains(x));
            }
            assert(d.no_duplicates()) by {
                assert(forall|k: int| 0 <= k < dp.len() ==> d[k] == dp[k]);
                assert(d[d.len() - 1] == x);
                assert(forall|k: int| 0 <= k < dp.len() ==> dp.contains(dp[k]));
            }
        }
    }
}

/// Drops every later duplicate token, keeping first occurrences in order.
pub fn dedup_elements(v: &[i32]) -> (r: Vec<i32>)
    ensures
        r@ == spec_dedup(v@),
{
    let mut out: Vec<i32> = Vec::new();
    let mut i: usize = 0;
    while i < v.len()
        invariant
            i <= v@.len(),
            out@ == spec_dedup(v@.subrange(0, i as int)),
        decreases v@.len() - i,
    {
        let ghost prefix = v@.subrange(0, i as int);
        let ghost extended = v@.subrange(0, i + 1);
        proof {
            assert(extended.drop_last() =~= prefix);
            assert(extended.last() == v@[i as int]);
        }
        if !contains_elem(out.as_slice(), v[i]) {
            out.push(v[i]);
        }
        i += 1;
    }
    proof {
        assert(v@.subrange(0, v@.len() as int) =~= v@);
    }
    out
}

/// The expected band row `j` for record `e` under configuration `(n, b)`.
pub open spec fn spec_row(e: DataEntry, n: int, b: int, j: int) -> TableEntry {
    TableEntry { tid: j as i32, val: spec_bands(e.eles@, n, b)[j], did: e.did }
}

/// The band table is, block by block, exactly the `b` band rows of each
/// record in order: row `k * b + j` is band `j` of record `k`.
pub open spec fn table_matches(table: Seq<TableEntry>, data: Seq<DataEntry>, n: int, b: int) -> bool {
    &&& table.len() == data.len() * b
    &&& forall|k: int, j: int|
        0 <= k < data.len() && 0 <= j < b ==> table[k * b + j] == #[trigger] spec_row(
            data[k],
            n,
            b,
            j,
        )
}

/// Any row of a matching table is the band row of the record its index
/// falls in.
pub proof fn lemma_table_row(table: Seq<TableEntry>, data: Seq<DataEntry>, n: int, b: int, t: int)
    requires
        table_matches(table, data, n, b),
        0 <= t < table.len(),
        b >= 1,
    ensures
        0 <= t / b < data.len(),
        0 <= t % b < b,
        table[t] == spec_row(data[t / b], n, b, t % b),
{
    let k = t / b;
    let j = t % b;
    lemma_fundamental_div_mod(t, b);
    assert(t == b * k + j);
    assert(b * k == k * b) by (nonlinear_arith);
    assert(k < data.len()) by (nonlinear_arith)
        requires
            t == k * b + j,
            t < data.len() * b,
            0 <= j < b,
            0 <= k,
            b >= 1,
    ;
    assert(k >= 0) by (nonlinear_arith)
        requires
            t == k * b + j,
            0 <= t,
            0 <= j < b,
            b >= 1,
    ;
    assert(table[k * b + j] == spec_row(data[k], n, b, j));
}

/// The bound index handle: the resolved configuration and the two tables
/// (the inverted band-bucket table and the exact-match records).
#[derive(Debug)]
pub struct MinhashDB {
    /// The resolved configuration; immutable for the handle's lifetime.
    pub options: MinhashOptions,
    /// The inverted band-bucket table.
    pub table_coll: Vec<TableEntry>,
    /// The exact-match records, one per stored document id.
    pub data_coll: Vec<DataEntry>,
}

impl MinhashDB {
    /// The resolved band count.
    pub open spec fn spec_num_bands(self) -> int {
        self.options.num_bands.unwrap() as int
    }

    /// The signature length.
    pub open spec fn spec_num_hashes(self) -> int {
        self.options.num_hashes as int
    }

    /// The configuration is resolved and consistent: the band count is
    /// present, positive, and evenly divides the hash count.
    pub open spec fn config_wf(self) -> bool {
        &&& self.options.wf()
        &&& self.options.num_bands is Some
        &&& 1 <= self.spec_num_bands() <= self.spec_num_hashes()
        &&& self.spec_num_hashes() % self.spec_num_bands() == 0
    }

    /// A storable record: nonempty, duplicate-free, and small enough that
    /// Jaccard counting cannot overflow.
    pub open spec fn entry_wf(e: DataEntry) -> bool {
        &&& e.eles@.no_duplicates()
        &&& e.eles@.len() > 0
        &&& e.eles@.len() <= usize::MAX / 2
    }

    /// Well-formedness of the whole index: a resolved configuration,
    /// distinct document ids, storable records, and a band table that is
    /// exactly the records' band rows, block by block.
    pub open spec fn wf(self) -> bool {
        &&& self.config_wf()
        &&& forall|k: int, l: int|
            0 <= k < l < self.data_coll@.len() ==> #[trigger] self.data_coll@[k].did
                != #[trigger] self.data_coll@[l].did
        &&& forall|k: int|
            0 <= k < self.data_coll@.len() ==> Self::entry_wf(#[trigger] self.data_coll@[k])
        &&& table_matches(
            self.table_coll@,
            self.data_coll@,
            self.spec_num_hashes(),
            self.spec_num_bands(),
        )
    }

    /// Computes the `num_hashes`-round MinHash signature of `eles`: round `i`
    /// is the minimum over all elements of round `i` of each element's own
    /// deterministic stream. Equal inputs always give identical signatures.
    pub fn calc_minhash(eles: &Vec<i32>, num_hashes: i32) -> (r: Vec<i32>)
        requires
            eles@.len() > 0,
            num_hashes >= 0,
        ensures
            r@ == spec_signature(eles@, num_hashes as int),
    {
        let n: usize = num_hashes as usize;
        let first = stream_prefix(eles[0] as u64, n);
        let mut out: Vec<i32> = Vec::new();
        let mut i: usize = 0;
        while i < n
            invariant
                i <= n,
                n == num_hashes,
                eles@.len() > 0,
                first@.len() == n,
                forall|m: int| 0 <= m < n ==> first@[m] == wy_stream(eles@[0] as u64, m),
                out@.len() == i,
                forall|m: int| 0 <= m < i ==> out@[m] == stream_i32(eles@[0], m),
            decreases n - i,
        {
            out.push(first[i] as i32);
            i += 1;
        }
        let mut j: usize = 1;
        while j < eles.len()
            invariant
                1 <= j <= eles@.len(),
                n == num_hashes,
                out@.len() == n,
                forall|m: int| 0 <= m < n ==> out@[m] == spec_sig_upto(eles@, m, j as int),
            decreases eles@.len() - j,
        {
            let st = stream_prefix(eles[j] as u64, n);
            let mut m: usize = 0;
            while m < n
                invariant
                    m <= n,
                    j < eles@.len(),
                    n == num_hashes,
                    st@.len() == n,
                    forall|p: int| 0 <= p < n ==> st@[p] == wy_stream(eles@[j as int] as u64, p),
                    out@.len() == n,
                    forall|p: int| 0 <= p < m ==> out@[p] == spec_sig_upto(eles@, p, j + 1),
                    forall|p: int| m <= p < n ==> out@[p] == spec_sig_upto(eles@, p, j as int),
                decreases n - m,
            {
                let v: i32 = st[m] as i32;
                if v < out[m] {
                    out[m] = v;
                }
                m += 1;
            }
            j += 1;
        }
        proof {
            assert(out@ =~= spec_signature(eles@, num_hashes as int));
        }
        out
    }

    /// Splits a signature into `num_band` contiguous chunks of equal size and
    /// folds each chunk into one bucket key with the fixed-seed hash.
    pub fn to_band(v: &Vec<i32>, num_band: i32) -> (r: Vec<i32>)
        requires
            num_band >= 1,
            v@.len() as int % (num_band as int) == 0,
            v@.len() >= num_band,
        ensures
            r@.len() == num_band,
            forall|j: int|
                0 <= j < num_band ==> r@[j] == spec_band_of(
                    v@,
                    v@.len() as int / num_band as int,
                    j,
                ),
    {
        let b: usize = num_band as usize;
        let r_sz: usize = v.len() / b;
        proof {
            lemma_fundamental_div_mod(v@.len() as int, b as int);
            assert(r_sz >= 1) by (nonlinear_arith)
                requires
                    v@.len() == b * r_sz + v@.len() as int % (b as int),
                    v@.len() as int % (b as int) == 0,
                    v@.len() >= b,
                    b >= 1,
                    r_sz >= 0,
            ;
        }
        let mut out: Vec<i32> = Vec::new();
        let mut j: usize = 0;
        while j < b
            invariant
                j <= b,
                b == num_band,
                r_sz == v@.len() as int / num_band as int,
                v@.len() == b * r_sz,
                v@.len() <= usize::MAX,
                r_sz >= 1,
                out@.len() == j,
                forall|m: int| 0 <= m < j ==> out@[m] == spec_band_of(v@, r_sz as int, m),
            decreases b - j,
        {
            proof {
                assert(j * r_sz + r_sz <= b * r_sz) by (nonlinear_arith)
                    requires
                        0 <= j < b,
                        r_sz >= 1,
                ;
                assert(0 <= j * r_sz) by (nonlinear_arith)
                    requires
                        0 <= j,
                        r_sz >= 1,
                ;
            }
            let start: usize = j * r_sz;
            let mut chunk: Vec<i32> = Vec::new();
            let mut k: usize = 0;
            while k < r_sz
                invariant
                    k <= r_sz,
                    start == j * r_sz,
                    start + r_sz <= v@.len(),
                    v@.len() <= usize::MAX,
                    chunk@ == v@.subrange(start as int, start + k),
                decreases r_sz - k,
            {
                chunk.push(v[start + k]);
                proof {
                    assert(chunk@ =~= v@.subrange(start as int, start + k + 1));
                }
                k += 1;
            }
            proof {
                assert((j + 1) * r_sz == j * r_sz + r_sz) by (nonlinear_arith);
                assert(chunk@ == v@.subrange(
                    j as int * r_sz as int,
                    (j + 1) as int * r_sz as int,
                ));
            }
            out.push(calculate_hash(chunk.as_slice()));
            j += 1;
        }
        out
    }
}

/// The configuration an index is created from: the given one, or the
/// default.
pub open spec fn spec_base_options(o: Option<MinhashOptions>) -> MinhashOptions {
    match o {
        Some(x) => x,
        None => spec_default_options(),
    }
}

/// A band count `b` usable with signature length `n`: positive, no larger
/// than `n`, and evenly dividing it.
pub open spec fn spec_valid_bands(n: int, b: int) -> bool {
    1 <= b <= n && n % b == 0
}

/// Whether a configuration can be resolved: either its band count is given
/// and valid, or the optimizer can derive one from a target similarity.
pub open spec fn spec_resolvable(o: MinhashOptions) -> bool {
    match o.num_bands {
        Some(b) => spec_valid_bands(o.num_hashes as int, b as int),
        None => match o.target_jaccard_similarity {
            Some(t) => spec_best_bands(o.num_hashes as int, spec_target_fp(t)) is Some,
            None => false,
        },
    }
}

fn find_data_index(data: &Vec<DataEntry>, did: u64) -> (r: Option<usize>)
    ensures
        match r {
            Some(i) => i < data@.len() && data@[i as int].did == did,
            None => forall|k: int| 0 <= k < data@.len() ==> (#[trigger] data@[k]).did != did,
        },
{
    let mut i: usize = 0;
    while i < data.len()
        invariant
            i <= data@.len(),
            forall|k: int| 0 <= k < i ==> (#[trigger] data@[k]).did != did,
        decreases data@.len() - i,
    {
        if data[i].did == did {
            return Some(i);
        }
        i += 1;
    }
    None
}

fn remove_block(table: &mut Vec<TableEntry>, start: usize, b: usize) -> (nothing: ())
    requires
        start + b <= old(table)@.len(),
    ensures
        final(table)@ == old(table)@.subrange(0, start as int).add(
            old(table)@.subrange(start + b, old(table)@.len() as int),
        ),
{
    let ghost t0 = table@;
    let mut c: usize = 0;
    while c < b
        invariant
            c <= b,
            start + b <= t0.len(),
            table@ == t0.subrange(0, start as int).add(t0.subrange(start + c, t0.len() as int)),
        decreases b - c,
    {
        proof {
            assert(table@.len() == t0.len() - c);
            assert(table@[start as int] == t0[start + c]);
        }
        table.remove(start);
        proof {
            assert(table@ =~= t0.subrange(0, start as int).add(
                t0.subrange(start + c + 1, t0.len() as int),
            ));
        }
        c += 1;
    }
}

impl MinhashDB {
    /// Resolves a configuration — deriving the band count from the target
    /// similarity when none was given — and creates an empty index bound to
    /// it. Fails with a configuration error exactly when no valid band count
    /// is given and none can be derived.
    pub fn create(options: Option<MinhashOptions>) -> (r: Result<MinhashDB, MinhashError>)
        requires
            match options {
                Some(o) => o.wf(),
                None => true,
            },
        ensures
            r is Ok <==> spec_resolvable(spec_base_options(options)),
            match r {
                Ok(db) => {
                    &&& db.wf()
                    &&& db.data_coll@.len() == 0
                    &&& db.table_coll@.len() == 0
                    &&& db.options.num_hashes == spec_base_options(options).num_hashes
                    &&& db.options.target_jaccard_similarity == spec_base_options(
                        options,
                    ).target_jaccard_similarity
                    &&& (spec_base_options(options).num_bands is Some ==> db.options.num_bands
                        == spec_base_options(options).num_bands)
                    &&& match (
                        spec_base_options(options).num_bands,
                        spec_base_options(options).target_jaccard_similarity,
                    ) {
                        (None, Some(t)) => (db.options.num_bands is Some) && (
                        db.options.num_bands.unwrap() as int == spec_best_bands(
                            spec_base_options(options).num_hashes as int,
                            spec_target_fp(t),
                        ).unwrap()),
                        _ => true,
                    }
                },
                Err(e) => e is ConfigurationError,
            },
    {
        let mut o: MinhashOptions = match options {
            Some(x) => x,
            None => MinhashOptions::default(),
        };
        let ghost base = o;
        if o.num_bands.is_none() {
            o.calculate_bands();
        }
        match o.num_bands {
            None => Err(MinhashError::ConfigurationError),
            Some(b) => {
                if 1 <= b && b <= o.num_hashes && o.num_hashes % b == 0 {
                    let db = MinhashDB { options: o, table_coll: Vec::new(), data_coll: Vec::new() };
                    proof {
                        assert(db.data_coll@.len() * db.spec_num_bands() == 0) by (nonlinear_arith)
                            requires
                                db.data_coll@.len() == 0,
                        ;
                        if base.num_bands is None {
                            assert(b * b < base.num_hashes ==> b <= base.num_hashes)
                                by (nonlinear_arith)
                                requires
                                    b >= 1,
                            ;
                        }
                    }
                    Ok(db)
                } else {
                    proof {
                        if base.num_bands is None && base.target_jaccard_similarity is Some {
                            // a derived band count is always valid, so this
                            // branch is only reached with an invalid explicit one
                            assert(b * b < base.num_hashes ==> b <= base.num_hashes)
                                by (nonlinear_arith)
                                requires
                                    b >= 1,
                            ;
                        }
                    }
                    Err(MinhashError::ConfigurationError)
                }
            },
        }
    }

    /// Point lookup of the stored record for `document`; no banding involved.
    /// Returns a copy of the record, or `None` when the id is not stored.
    pub fn find_exact(&self, document: u64) -> (r: Option<DataEntry>)
        requires
            self.wf(),
        ensures
            r is Some <==> exists|k: int|
                0 <= k < self.data_coll@.len() && (#[trigger] self.data_coll@[k]).did == document,
            match r {
                Some(e) => exists|k: int|
                    0 <= k < self.data_coll@.len() && (#[trigger] self.data_coll@[k]).did
                        == document && e.did == document && e.eles@ == self.data_coll@[k].eles@,
                None => true,
            },
    {
        match find_data_index(&self.data_coll, document) {
            Some(i) => Some(self.data_coll[i].clone()),
            None => None,
        }
    }

    /// Removes the record of `document` and every band row pointing to it.
    /// Afterwards no table row and no record carries that id. Returns the
    /// removed record, or `None` when the id was not stored.
    pub fn delete(&mut self, document: u64) -> (r: Option<DataEntry>)
        requires
            old(self).wf(),
        ensures
            final(self).wf(),
            final(self).options == old(self).options,
            match r {
                Some(e) => exists|k: int|
                    {
                        &&& 0 <= k < old(self).data_coll@.len()
                        &&& (#[trigger] old(self).data_coll@[k]).did == document
                        &&& e.did == document
                        &&& e.eles@ == old(self).data_coll@[k].eles@
                        &&& final(self).data_coll@ == old(self).data_coll@.remove(k)
                        &&& final(self).table_coll@ == old(self).table_coll@.subrange(
                            0,
                            k * old(self).spec_num_bands(),
                        ).add(
                            old(self).table_coll@.subrange(
                                (k + 1) * old(self).spec_num_bands(),
                                old(self).table_coll@.len() as int,
                            ),
                        )
                    },
                None => *final(self) == *old(self) && forall|k: int|
                    0 <= k < old(self).data_coll@.len() ==> (#[trigger] old(self).data_coll@[k]).did != document,
            },
            forall|k: int|
                0 <= k < final(self).data_coll@.len() ==> (#[trigger] final(self).data_coll@[k]).did != document,
            forall|t: int|
                0 <= t < final(self).table_coll@.len() ==> (#[trigger] final(self).table_coll@[t]).did != document,
    {
        let ghost d0 = self.data_coll@;
        let ghost t0 = self.table_coll@;
        let ghost n = self.spec_num_hashes();
        let ghost b = self.spec_num_bands();
        let idx: usize = match find_data_index(&self.data_coll, document) {
            None => {
                proof {
                    assert forall|t: int| 0 <= t < t0.len() implies (#[trigger] t0[t]).did
                        != document by {
                        lemma_table_row(t0, d0, n, b, t);
                    }
                }
                return None;
            },
            Some(i) => i,
        };
        let nb: usize = match self.options.num_bands {
            Some(x) => x as usize,
            None => 1,  // unreachable under the precondition
        };
        proof {
            assert((idx + 1) * b <= d0.len() * b && idx * b >= 0 && idx * b + b == (idx + 1) * b)
                by (nonlinear_arith)
                requires
                    0 <= idx < d0.len(),
                    b >= 1,
            ;
        }
        let table_len: usize = self.table_coll.len();
        proof {
            assert(table_len == d0.len() * b);
        }
        let entry = self.data_coll.remove(idx);
        let start: usize = idx * nb;
        remove_block(&mut self.table_coll, start, nb);
        proof {
            let d1 = self.data_coll@;
            let t1 = self.table_coll@;
            assert(d1.len() * b == d0.len() * b - b) by (nonlinear_arith)
                requires
                    d1.len() == d0.len() - 1,
                    b >= 1,
            ;
            assert forall|k: int, j: int| 0 <= k < d1.len() && 0 <= j < b implies t1[k * b + j]
                == #[trigger] spec_row(d1[k], n, b, j) by {
                if k < idx {
                    assert(k * b + j < idx * b && k * b + j >= 0) by (nonlinear_arith)
                        requires
                            0 <= k < idx,
                            0 <= j < b,
                    ;
                    assert(t1[k * b + j] == t0[k * b + j]);
                    assert(t0[k * b + j] == spec_row(d0[k], n, b, j));
                } else {
                    assert(k * b + j >= idx * b && k * b + j + b == (k + 1) * b + j && (k + 1) * b
                        + j < d0.len() * b && (k + 1) * b + j >= 0) by (nonlinear_arith)
                        requires
                            idx <= k < d1.len(),
                            d1.len() == d0.len() - 1,
                            0 <= j < b,
                            b >= 1,
                            idx >= 0,
                    ;
                    assert(t1[k * b + j] == t0[(k + 1) * b + j]);
                    assert(t0[(k + 1) * b + j] == spec_row(d0[k + 1], n, b, j));
                }
            }
            assert forall|t: int| 0 <= t < t1.len() implies (#[trigger] t1[t]).did != document by {
                if t < idx * b {
                    lemma_table_row(t0, d0, n, b, t);
                    lemma_fundamental_div_mod(t, b);
                    assert(t / b < idx) by (nonlinear_arith)
                        requires
                            0 <= t < idx * b,
                            b >= 1,
                            t == b * (t / b) + t % b,
                            0 <= t % b < b,
                    ;
                } else {
                    lemma_table_row(t0, d0, n, b, t + b);
                    lemma_fundamental_div_mod(t + b, b);
                    assert((t + b) / b > idx) by (nonlinear_arith)
                        requires
                            t >= idx * b,
                            b >= 1,
                            t + b == b * ((t + b) / b) + (t + b) % b,
                            0 <= (t + b) % b < b,
                            idx >= 0,
                    ;
                }
            }
        }
        Some(entry)
    }
}

impl MinhashDB {
    /// Computes the signature and band rows of `elements` under the bound
    /// configuration and stores them under `document`: any prior record with
    /// that id is removed first, together with all its band rows, and then
    /// one record (holding the deduplicated tokens) and exactly `num_bands`
    /// band rows are inserted. Returns the replaced record, or `None` on a
    /// first insert. Replaying the call with the same input gives the same
    /// final state, so a caller that saw a failure mid-update can retry it.
    pub fn insert_or_update_raw(&mut self, document: u64, elements: &[i32]) -> (r: Option<
        DataEntry,
    >)
        requires
            old(self).wf(),
            elements@.len() > 0,
            elements@.len() <= usize::MAX / 2,
        ensures
            final(self).wf(),
            final(self).options == old(self).options,
            final(self).data_coll@.len() >= 1,
            (final(self).data_coll@.last().did == document),
            (final(self).data_coll@.last().eles@ == spec_dedup(elements@)),
            (final(self).data_coll@.last().eles@.to_set() == elements@.to_set()),
            match r {
                Some(e) => exists|k: int|
                    {
                        &&& 0 <= k < old(self).data_coll@.len()
                        &&& (#[trigger] old(self).data_coll@[k]).did == document
                        &&& e.did == document
                        &&& e.eles@ == old(self).data_coll@[k].eles@
                        &&& final(self).data_coll@ == old(self).data_coll@.remove(k).push(
                            final(self).data_coll@.last(),
                        )
                    },
                None => (forall|k: int|
                    0 <= k < old(self).data_coll@.len() ==> (#[trigger] old(
                        self,
                    ).data_coll@[k]).did != document) && final(self).data_coll@ == old(
                    self,
                ).data_coll@.push(final(self).data_coll@.last()),
            },
    {
        let prior = self.delete(document);
        proof {
            lemma_dedup_props(elements@);
        }
        let q = dedup_elements(elements);
        let nh: i32 = self.options.num_hashes;
        let nb: i32 = match self.options.num_bands {
            Some(x) => x,
            None => 1,  // unreachable under the precondition
        };
        let sig = Self::calc_minhash(&q, nh);
        let bands = Self::to_band(&sig, nb);
        let ghost d1 = self.data_coll@;
        let ghost t1 = self.table_coll@;
        let ghost n = self.spec_num_hashes();
        let ghost b = self.spec_num_bands();
        let table_len: usize = self.table_coll.len();
        proof {
            assert(table_len == d1.len() * b);
            assert(d1.len() * b + b == (d1.len() + 1) * b) by (nonlinear_arith);
        }
        self.data_coll.push(DataEntry { did: document, eles: q });
        let ghost entry = self.data_coll@.last();
        let bcount: usize = nb as usize;
        let mut j: usize = 0;
        while j < bcount
            invariant
                j <= bcount,
                bcount == b,
                self.options == old(self).options,
                self.data_coll@ == d1.push(entry),
                bands@.len() == b,
                forall|m: int| 0 <= m < b ==> bands@[m] == spec_bands(entry.eles@, n, b)[m],
                entry.did == document,
                self.table_coll@.len() == t1.len() + j,
                self.table_coll@.subrange(0, t1.len() as int) == t1,
                forall|m: int|
                    0 <= m < j ==> self.table_coll@[t1.len() + m] == #[trigger] spec_row(
                        entry,
                        n,
                        b,
                        m,
                    ),
            decreases bcount - j,
        {
            self.table_coll.push(TableEntry { tid: j as i32, val: bands[j], did: document });
            proof {
                assert(self.table_coll@.subrange(0, t1.len() as int) =~= t1);
            }
            j += 1;
        }
        proof {
            let d2 = self.data_coll@;
            let t2 = self.table_coll@;
            assert(d2.len() * b == t1.len() + b) by (nonlinear_arith)
                requires
                    d2.len() == d1.len() + 1,
                    t1.len() == d1.len() * b,
            ;
            assert forall|k: int, m: int| 0 <= k < d2.len() && 0 <= m < b implies t2[k * b + m]
                == #[trigger] spec_row(d2[k], n, b, m) by {
                if k < d1.len() {
                    assert(0 <= k * b + m < d1.len() * b) by (nonlinear_arith)
                        requires
                            0 <= k < d1.len(),
                            0 <= m < b,
                    ;
                    assert(t2[k * b + m] == t1[k * b + m]);
                    assert(t1[k * b + m] == spec_row(d1[k], n, b, m));
                } else {
                    assert(k * b + m == t1.len() + m) by (nonlinear_arith)
                        requires
                            k == d1.len(),
                            t1.len() == d1.len() * b,
                    ;
                    assert(t2[t1.len() + m] == spec_row(entry, n, b, m));
                }
            }
            assert(entry.eles@.to_set() == elements@.to_set());
        }
        prior
    }

    /// In a well-formed index, a stored document owns exactly `num_bands`
    /// band rows — its own contiguous block — and every other row carries
    /// another document's id. With the id-uniqueness of the records, this is
    /// the "replace, not accumulate" guarantee: after any sequence of
    /// operations there is one record and one block of `num_bands` rows per
    /// stored id, never more.
    pub proof fn lemma_rows_per_document(self, k: int)
        requires
            self.wf(),
            0 <= k < self.data_coll@.len(),
        ensures
            forall|t: int|
                0 <= t < self.table_coll@.len() ==> ((#[trigger] self.table_coll@[t]).did
                    == self.data_coll@[k].did <==> k * self.spec_num_bands() <= t < (k + 1)
                    * self.spec_num_bands()),
    {
        let d0 = self.data_coll@;
        let t0 = self.table_coll@;
        let n = self.spec_num_hashes();
        let b = self.spec_num_bands();
        assert forall|t: int| 0 <= t < t0.len() implies ((#[trigger] t0[t]).did == d0[k].did <==> k
            * b <= t < (k + 1) * b) by {
            lemma_table_row(t0, d0, n, b, t);
            lemma_fundamental_div_mod(t, b);
            assert(t0[t].did == d0[t / b].did);
            if t / b == k {
                assert(k * b <= t < (k + 1) * b) by (nonlinear_arith)
                    requires
                        t == b * (t / b) + t % b,
                        0 <= t % b < b,
                        t / b == k,
                ;
            } else {
                assert(d0[t / b].did != d0[k].did);
                assert(!(k * b <= t < (k + 1) * b)) by (nonlinear_arith)
                    requires
                        t == b * (t / b) + t % b,
                        0 <= t % b < b,
                        t / b != k,
                        b >= 1,
                ;
            }
        }
    }
}

/// A permutation of a sequence whose elements have pairwise-distinct keys
/// again has pairwise-distinct keys.
proof fn lemma_perm_distinct_keys<T, K>(a: Seq<T>, b: Seq<T>, key: spec_fn(T) -> K)
    requires
        a.to_multiset() == b.to_multiset(),
        forall|c1: int, c2: int|
            0 <= c1 < c2 < a.len() ==> key(#[trigger] a[c1]) != key(#[trigger] a[c2]),
    ensures
        forall|i: int, j: int|
            0 <= i < j < b.len() ==> key(#[trigger] b[i]) != key(#[trigger] b[j]),
{
    broadcast use vstd::seq_lib::to_multiset_contains, vstd::seq_lib::to_multiset_remove, vstd::multiset::group_multiset_axioms;

    assert forall|i: int, j: int| 0 <= i < j < b.len() implies key(#[trigger] b[i]) != key(
        #[trigger] b[j],
    ) by {
        if key(b[i]) == key(b[j]) {
            if b[i] == b[j] {
                let br = b.remove(i);
                assert(br.to_multiset() == b.to_multiset().remove(b[i]));
                assert(br[j - 1] == b[j]);
                assert(br.contains(b[j]));
                assert(br.to_multiset().count(b[j]) > 0);
                assert(b.to_multiset().count(b[i]) >= 2);
                assert(a.to_multiset().count(b[i]) >= 2);
                assert(a.contains(b[i]));
                let c1 = choose|c1: int| 0 <= c1 < a.len() && a[c1] == b[i];
                let ar = a.remove(c1);
                assert(ar.to_multiset() == a.to_multiset().remove(a[c1]));
                assert(ar.to_multiset().count(b[i]) > 0);
                assert(ar.contains(b[i]));
                let c2 = choose|c2: int| 0 <= c2 < ar.len() && ar[c2] == b[i];
                if c2 < c1 {
                    assert(a[c2] == b[i]);
                    assert(key(a[c2]) != key(a[c1]));
                } else {
                    assert(a[c2 + 1] == b[i]);
                    assert(key(a[c1]) != key(a[c2 + 1]));
                }
                assert(false);
            } else {
                assert(b.contains(b[i]) && b.contains(b[j])) by {
                    assert(b[i] == b[i] && b[j] == b[j]);
                }
                assert(b.to_multiset().count(b[i]) > 0);
                assert(b.to_multiset().count(b[j]) > 0);
                assert(a.to_multiset().count(b[i]) > 0);
                assert(a.to_multiset().count(b[j]) > 0);
                assert(a.contains(b[i]));
                assert(a.contains(b[j]));
                let c1 = choose|c1: int| 0 <= c1 < a.len() && a[c1] == b[i];
                let c2 = choose|c2: int| 0 <= c2 < a.len() && a[c2] == b[j];
                assert(c1 != c2);
                if c1 < c2 {
                    assert(key(a[c1]) != key(a[c2]));
                } else {
                    assert(key(a[c2]) != key(a[c1]));
                }
                assert(false);
            }
        }
    }
}

fn find_insert_pos(s: &Vec<(Similarity, u64)>, i: usize, x: (Similarity, u64)) -> (p: usize)
    requires
        i <= s@.len(),
    ensures
        p <= i,
        forall|k: int| 0 <= k < p ==> !hit_lt(s@[k], x),
        p < i ==> hit_lt(s@[p as int], x),
{
    let mut p: usize = 0;
    while p < i
        invariant
            p <= i,
            i <= s@.len(),
            forall|k: int| 0 <= k < p ==> !hit_lt(s@[k], x),
        decreases i - p,
    {
        if hit_less(&s[p], &x) {
            return p;
        }
        p += 1;
    }
    p
}

/// Sorts query hits in place, descending: by exact similarity value first,
/// then by document id. The result is a permutation of the input; equal
/// hits keep their relative order, so the output is deterministic.
pub fn insertion_sort_descending(s: &mut Vec<(Similarity, u64)>)
    ensures
        final(s)@.len() == old(s)@.len(),
        final(s)@.to_multiset() == old(s)@.to_multiset(),
        forall|i: int, j: int| 0 <= i < j < final(s)@.len() ==> !hit_lt(final(s)@[i], final(s)@[j]),
{
    let mut i: usize = 1;
    while i < s.len()
        invariant
            i >= 1,
            s@.len() == old(s)@.len(),
            s@.to_multiset() == old(s)@.to_multiset(),
            forall|k: int, l: int| 0 <= k < l < i && l < s@.len() ==> !hit_lt(s@[k], s@[l]),
        decreases s@.len() - i,
    {
        let ghost s0 = s@;
        let x: (Similarity, u64) = s[i];
        let p: usize = find_insert_pos(s, i, x);
        let moved = s.remove(i);
        s.insert(p, moved);
        proof {
            broadcast use vstd::seq_lib::to_multiset_insert, vstd::seq_lib::to_multiset_remove;

            assert(s0.contains(x)) by {
                assert(s0[i as int] == x);
            }
            assert(s0.to_multiset().contains(x)) by {
                broadcast use vstd::seq_lib::to_multiset_contains;

            }
            assert(s@.to_multiset() =~= s0.to_multiset());
            let t = s@;
            assert forall|k: int, l: int| 0 <= k < l < i + 1 && l < t.len() implies !hit_lt(
                t[k],
                t[l],
            ) by {
                if l < p {
                    assert(t[k] == s0[k] && t[l] == s0[l]);
                } else if l == p {
                    assert(t[l] == x);
                    assert(!hit_lt(s0[k], x));
                } else if k < p {
                    assert(t[k] == s0[k] && t[l] == s0[l - 1]);
                    if p < l - 1 || p < i {
                    }
                    assert(!hit_lt(s0[k], s0[l - 1]));
                } else if k == p {
                    assert(t[k] == x && t[l] == s0[l - 1]);
                    assert(p < i);
                    assert(hit_lt(s0[p as int], x));
                    if hit_lt(x, s0[l - 1]) {
                        lemma_hit_lt_trans(s0[p as int], x, s0[l - 1]);
                        assert(hit_lt(s0[p as int], s0[l - 1]));
                        assert(p as int <= l - 1);
                        if p as int == l - 1 {
                            assert(false);
                        } else {
                            assert(!hit_lt(s0[p as int], s0[l - 1]));
                        }
                    }
                } else {
                    assert(t[k] == s0[k - 1] && t[l] == s0[l - 1]);
                    assert(!hit_lt(s0[k - 1], s0[l - 1]));
                }
            }
        }
        i += 1;
    }
}

fn find_count_pos(s: &Vec<AnnResultEntry>, i: usize, c: i32) -> (p: usize)
    requires
        i <= s@.len(),
    ensures
        p <= i,
        forall|k: int| 0 <= k < p ==> s@[k].count >= c,
        p < i ==> s@[p as int].count < c,
{
    let mut p: usize = 0;
    while p < i
        invariant
            p <= i,
            i <= s@.len(),
            forall|k: int| 0 <= k < p ==> s@[k].count >= c,
        decreases i - p,
    {
        if s[p].count < c {
            return p;
        }
        p += 1;
    }
    p
}

/// Sorts grouped candidates in place, descending by their band-match count;
/// candidates with equal counts keep their relative order.
fn sort_candidates_by_count(s: &mut Vec<AnnResultEntry>)
    ensures
        final(s)@.len() == old(s)@.len(),
        final(s)@.to_multiset() == old(s)@.to_multiset(),
        forall|i: int, j: int|
            0 <= i < j < final(s)@.len() ==> final(s)@[i].count >= final(s)@[j].count,
{
    let mut i: usize = 1;
    while i < s.len()
        invariant
            i >= 1,
            s@.len() == old(s)@.len(),
            s@.to_multiset() == old(s)@.to_multiset(),
            forall|k: int, l: int| 0 <= k < l < i && l < s@.len() ==> s@[k].count >= s@[l].count,
        decreases s@.len() - i,
    {
        let ghost s0 = s@;
        let c: i32 = s[i].count;
        let p: usize = find_count_pos(s, i, c);
        let moved = s.remove(i);
        proof {
            assert(moved.count == c);
        }
        s.insert(p, moved);
        proof {
            broadcast use vstd::seq_lib::to_multiset_insert, vstd::seq_lib::to_multiset_remove;

            assert(s0.to_multiset().contains(s0[i as int])) by {
                broadcast use vstd::seq_lib::to_multiset_contains;

                assert(s0.contains(s0[i as int]));
            }
            assert(s@.to_multiset() =~= s0.to_multiset());
            let t = s@;
            assert forall|k: int, l: int| 0 <= k < l < i + 1 && l < t.len() implies t[k].count
                >= t[l].count by {
                if l < p {
                } else if l == p {
                } else if k < p {
                } else if k == p {
                    assert(t[l] == s0[l - 1]);
                    assert(p < i);
                    assert(s0[p as int].count < c);
                    if (p as int) < l - 1 {
                        assert(s0[p as int].count >= s0[l - 1].count);
                    }
                } else {
                }
            }
        }
        i += 1;
    }
}

/// The number of positions among the first `j` where two band sequences
/// agree.
pub open spec fn spec_match_count(qb: Seq<i32>, db: Seq<i32>, j: int) -> int
    decreases j,
{
    if j <= 0 {
        0
    } else {
        spec_match_count(qb, db, j - 1) + if qb[j - 1] == db[j - 1] {
            1int
        } else {
            0int
        }
    }
}

proof fn lemma_match_count_bounds(qb: Seq<i32>, db: Seq<i32>, j: int)
    ensures
        0 <= spec_match_count(qb, db, j) <= if j >= 0 {
            j
        } else {
            0
        },
    decreases j,
{
    if j > 0 {
        lemma_match_count_bounds(qb, db, j - 1);
    }
}

/// Each line hashed into one 32-bit token under the index's fixed seed.
pub open spec fn spec_line_tokens(lines: Seq<String>) -> Seq<i32> {
    lines.map_values(|s: String| line_hash_of(WYHASH_SEED, s@))
}

impl MinhashDB {
    /// The query's band values: the bands of the deduplicated token
    /// sequence under the bound configuration.
    pub open spec fn spec_query_bands(self, q: Seq<i32>) -> Seq<i32> {
        spec_bands(spec_dedup(q), self.spec_num_hashes(), self.spec_num_bands())
    }

    /// The band values of stored record `k`.
    pub open spec fn spec_doc_bands(self, k: int) -> Seq<i32> {
        spec_bands(self.data_coll@[k].eles@, self.spec_num_hashes(), self.spec_num_bands())
    }

    /// Whether stored record `k` shares at least one band with the query:
    /// the LSH candidate condition.
    pub open spec fn spec_is_candidate(self, q: Seq<i32>, k: int) -> bool {
        spec_match_count(self.spec_query_bands(q), self.spec_doc_bands(k), self.spec_num_bands())
            >= 1
    }

    /// The exact Jaccard similarity of the query token set and record `k`.
    pub open spec fn spec_query_sim(self, q: Seq<i32>, k: int) -> Similarity {
        Similarity {
            num: jaccard_num(q.to_set(), self.data_coll@[k].eles@.to_set()) as u64,
            den: jaccard_den(q.to_set(), self.data_coll@[k].eles@.to_set()) as u64,
        }
    }

    /// A hit the query may return: some stored record, with its exact
    /// similarity, sharing at least one band with the query and meeting the
    /// threshold when one was given.
    pub open spec fn spec_valid_hit(
        self,
        q: Seq<i32>,
        threshold: Option<Ratio>,
        h: (Similarity, u64),
    ) -> bool {
        exists|k: int|
            {
                &&& 0 <= k < self.data_coll@.len()
                &&& (#[trigger] self.data_coll@[k]).did == h.1
                &&& h.0 == self.spec_query_sim(q, k)
                &&& self.spec_is_candidate(q, k)
                &&& match threshold {
                    Some(t) => spec_meets_threshold(h.0, t),
                    None => true,
                }
            }
    }

    /// One scanned candidate is sound: it names a stored record, carries a
    /// copy of its tokens, and its count is the exact number of shared bands.
    pub open spec fn spec_cand_ok(self, q: Seq<i32>, c: AnnResultEntry) -> bool {
        exists|k: int|
            {
                &&& 0 <= k < self.data_coll@.len()
                &&& (#[trigger] self.data_coll@[k]).did == c._id
                &&& c.data.did == c._id
                &&& c.data.eles@ == self.data_coll@[k].eles@
                &&& c.count as int == spec_match_count(
                    self.spec_query_bands(q),
                    self.spec_doc_bands(k),
                    self.spec_num_bands(),
                )
                &&& c.count >= 1
            }
    }

    /// Whether record `k` passes the optional similarity threshold.
    pub open spec fn spec_passes(self, q: Seq<i32>, k: int, threshold: Option<Ratio>) -> bool {
        match threshold {
            Some(t) => spec_meets_threshold(self.spec_query_sim(q, k), t),
            None => true,
        }
    }

    /// How many of the first `upto` stored records are LSH candidates for
    /// the query `q`.
    pub open spec fn spec_candidate_count(self, q: Seq<i32>, upto: int) -> int
        decreases upto,
    {
        if upto <= 0 {
            0
        } else {
            self.spec_candidate_count(q, upto - 1) + if self.spec_is_candidate(q, upto - 1) {
                1int
            } else {
                0int
            }
        }
    }

    /// Whether the band-count pre-truncation cannot drop any candidate:
    /// either no bound was given, or at most `top_k` stored records are
    /// candidates at all.
    pub open spec fn spec_no_pretruncation(self, q: Seq<i32>, top_k: Option<usize>) -> bool {
        match top_k {
            None => true,
            Some(kk) => self.spec_candidate_count(q, self.data_coll@.len() as int) <= kk,
        }
    }

    /// Approximate-nearest-neighbor query. Computes the query's signature
    /// and bands under the bound configuration, collects every stored
    /// document sharing at least one band, ranks candidates by how many
    /// bands they share and — when `top_k` is given — keeps only the best
    /// `top_k` before exact scoring (a deliberate recall/cost trade-off),
    /// re-scores the survivors with exact Jaccard similarity, drops those
    /// below `threshold`, sorts descending by similarity (ties by id), and
    /// truncates once more to `top_k`.
    ///
    /// Every returned hit is a stored candidate with its exact similarity;
    /// the list is sorted; no document id appears twice; the length never
    /// exceeds `top_k`; and whenever the pre-truncation cannot drop anyone
    /// (no `top_k`, or no more than `top_k` candidates exist) every
    /// candidate that passes the threshold is returned. An empty query has
    /// similarity 0 to every set (the 0/0 case is defined as 0, never an
    /// undefined form), so it returns no hits at all.
    #[verifier::loop_isolation(false)]
    #[verifier::rlimit(60)]
    pub fn find_ann_raw(&self, elements: &[i32], top_k: Option<usize>, threshold: Option<
        Ratio,
    >) -> (r: Vec<(Similarity, u64)>)
        requires
            self.wf(),
            elements@.len() <= usize::MAX / 2,
            match threshold {
                Some(t) => t.wf(),
                None => true,
            },
        ensures
            match top_k {
                Some(kk) => r@.len() <= kk,
                None => true,
            },
            elements@.len() == 0 ==> r@.len() == 0,
            forall|i: int|
                0 <= i < r@.len() ==> self.spec_valid_hit(elements@, threshold, #[trigger] r@[i]),
            forall|i: int, j: int| 0 <= i < j < r@.len() ==> !hit_lt(r@[i], r@[j]),
            forall|i: int, j: int| 0 <= i < j < r@.len() ==> r@[i].1 != r@[j].1,
            self.spec_no_pretruncation(elements@, top_k) && elements@.len() > 0 ==> forall|k: int|
                (0 <= k < self.data_coll@.len() && self.spec_is_candidate(elements@, k)
                    && self.spec_passes(elements@, k, threshold)) ==> exists|i: int|
                    0 <= i < r@.len() && r@[i].1 == (#[trigger] self.data_coll@[k]).did,
    {
        if elements.is_empty() {
            return Vec::new();
        }
        proof {
            lemma_dedup_props(elements@);
        }
        let q = dedup_elements(elements);
        let nh: i32 = self.options.num_hashes;
        let nb: i32 = match self.options.num_bands {
            Some(x) => x,
            None => 1,  // unreachable under the precondition
        };
        let sig = Self::calc_minhash(&q, nh);
        let qb = Self::to_band(&sig, nb);
        let b: usize = nb as usize;
        let ghost d0 = self.data_coll@;
        let ghost t0 = self.table_coll@;
        let ghost n = self.spec_num_hashes();
        let ghost bi = self.spec_num_bands();
        let ghost qbands = self.spec_query_bands(elements@);
        proof {
            assert(qb@ =~= qbands);
        }
        let table_len: usize = self.table_coll.len();
        proof {
            assert(table_len == d0.len() * bi);
        }
        let mut cands: Vec<AnnResultEntry> = Vec::new();
        let mut k: usize = 0;
        while k < self.data_coll.len()
            invariant
                k <= d0.len(),
                forall|c: int|
                    0 <= c < cands@.len() ==> self.spec_cand_ok(elements@, #[trigger] cands@[c]),
                forall|kk: int|
                    0 <= kk < k && self.spec_is_candidate(elements@, kk) ==> exists|c: int|
                        0 <= c < cands@.len() && (#[trigger] cands@[c])._id == d0[kk].did,
                cands@.len() == self.spec_candidate_count(elements@, k as int),
                forall|c1: int, c2: int|
                    0 <= c1 < c2 < cands@.len() ==> (#[trigger] cands@[c1])._id != (
                    #[trigger] cands@[c2])._id,
                forall|c: int|
                    0 <= c < cands@.len() ==> exists|kk: int|
                        0 <= kk < k && (#[trigger] d0[kk]).did == (#[trigger] cands@[c])._id,
            decreases d0.len() - k,
        {
            let mut cnt: i32 = 0;
            let mut j: usize = 0;
            proof {
                lemma_match_count_bounds(qbands, self.spec_doc_bands(k as int), bi);
            }
            while j < b
                invariant
                    j <= b,
                    k < d0.len(),
                    0 <= cnt <= j,
                    cnt as int == spec_match_count(qbands, self.spec_doc_bands(k as int), j as int),
                decreases b - j,
            {
                proof {
                    assert(0 <= k * bi + j < d0.len() * bi) by (nonlinear_arith)
                        requires
                            0 <= k < d0.len(),
                            0 <= j < bi,
                    ;
                    assert(t0[k * bi + j] == spec_row(d0[k as int], n, bi, j as int));
                }
                let te: TableEntry = self.table_coll[k * b + j];
                if te.val == qb[j] {
                    cnt += 1;
                }
                j += 1;
            }
            let ghost cands_before = cands@;
            if cnt > 0 {
                let rec = self.data_coll[k].clone();
                let did: u64 = rec.did;
                cands.push(AnnResultEntry { _id: did, data: rec, count: cnt });
                proof {
                    assert(self.spec_cand_ok(elements@, cands@.last())) by {
                        assert(0 <= k < self.data_coll@.len() && self.data_coll@[k as int].did
                            == cands@.last()._id && cands@.last().data.eles@
                            == self.data_coll@[k as int].eles@ && cands@.last().count as int
                            == spec_match_count(
                            self.spec_query_bands(elements@),
                            self.spec_doc_bands(k as int),
                            self.spec_num_bands(),
                        ));
                    }
                }
            }
            proof {
                assert forall|kk: int|
                    0 <= kk < k + 1 && self.spec_is_candidate(elements@, kk) implies exists|c: int|
                    0 <= c < cands@.len() && (#[trigger] cands@[c])._id == d0[kk].did by {
                    if kk < k {
                        let c0 = choose|c0: int|
                            0 <= c0 < cands_before.len() && (#[trigger] cands_before[c0])._id
                                == d0[kk].did;
                        assert(cands@[c0]._id == d0[kk].did);
                    } else {
                        assert(cnt > 0);
                        assert(cands@.last()._id == d0[kk].did);
                    }
                }
                assert(cands@.len() == self.spec_candidate_count(elements@, k + 1));
                if cnt > 0 {
                    assert forall|c1: int, c2: int|
                        0 <= c1 < c2 < cands@.len() implies (#[trigger] cands@[c1])._id != (
                    #[trigger] cands@[c2])._id by {
                        if c2 == cands@.len() - 1 {
                            let kk = choose|kk: int|
                                0 <= kk < k && (#[trigger] d0[kk]).did == cands_before[c1]._id;
                            assert(d0[kk].did != d0[k as int].did);
                        }
                    }
                    assert forall|c: int| 0 <= c < cands@.len() implies exists|kk: int|
                        0 <= kk < k + 1 && (#[trigger] d0[kk]).did == (
                    #[trigger] cands@[c])._id by {
                        if c < cands@.len() - 1 {
                            let kk = choose|kk: int|
                                0 <= kk < k && (#[trigger] d0[kk]).did == cands_before[c]._id;
                            assert(d0[kk].did == cands@[c]._id);
                        } else {
                            assert(d0[k as int].did == cands@[c]._id);
                        }
                    }
                }
            }
            k += 1;
        }
        let ghost complete = self.spec_no_pretruncation(elements@, top_k);
        let ghost cands0 = cands@;
        sort_candidates_by_count(&mut cands);
        proof {
            broadcast use vstd::seq_lib::to_multiset_contains;

            lemma_perm_distinct_keys(cands0, cands@, |e: AnnResultEntry| e._id);
            assert forall|cc: int| 0 <= cc < cands@.len() implies self.spec_cand_ok(
                elements@,
                #[trigger] cands@[cc],
            ) by {
                assert(cands@.contains(cands@[cc]));
                assert(cands@.to_multiset().count(cands@[cc]) > 0);
                assert(cands0.contains(cands@[cc]));
                let idx = choose|idx: int| 0 <= idx < cands0.len() && cands0[idx] == cands@[cc];
                assert(self.spec_cand_ok(elements@, cands0[idx]));
            }
            if complete {
                assert forall|kk: int|
                    0 <= kk < d0.len() && self.spec_is_candidate(elements@, kk) implies exists|
                    c: int,
                |
                    0 <= c < cands@.len() && (#[trigger] cands@[c])._id == d0[kk].did by {
                    let c1 = choose|c1: int|
                        0 <= c1 < cands0.len() && (#[trigger] cands0[c1])._id == d0[kk].did;
                    assert(cands0.contains(cands0[c1]));
                    assert(cands0.to_multiset().count(cands0[c1]) > 0);
                    assert(cands@.contains(cands0[c1]));
                    let c2 = choose|c2: int| 0 <= c2 < cands@.len() && cands@[c2] == cands0[c1];
                    assert(cands@[c2]._id == d0[kk].did);
                }
            }
        }
        let ghost sorted_cands = cands@;
        match top_k {
            Some(kk) => {
                if cands.len() > kk {
                    proof {
                        assert(!complete);
                    }
                    cands.truncate(kk);
                    proof {
                        assert forall|cc: int| 0 <= cc < cands@.len() implies self.spec_cand_ok(
                            elements@,
                            #[trigger] cands@[cc],
                        ) by {
                            assert(cands@[cc] == sorted_cands[cc]);
                        }
                        assert forall|c1: int, c2: int| 0 <= c1 < c2 < cands@.len() implies (
                        #[trigger] cands@[c1])._id != (#[trigger] cands@[c2])._id by {
                            assert(cands@[c1] == sorted_cands[c1] && cands@[c2]
                                == sorted_cands[c2]);
                        }
                    }
                }
            },
            None => {},
        }
        proof {
            if complete {
                match top_k {
                    Some(kk) => {
                        assert(cands@.len() <= kk);
                    },
                    None => {},
                }
            }
        }
        let mut hits: Vec<(Similarity, u64)> = Vec::new();
        let mut c: usize = 0;
        while c < cands.len()
            invariant
                c <= cands@.len(),
                hits@.len() <= c,
                q@ == spec_dedup(elements@),
                forall|cc: int|
                    0 <= cc < cands@.len() ==> self.spec_cand_ok(elements@, #[trigger] cands@[cc]),
                forall|h: int|
                    0 <= h < hits@.len() ==> self.spec_valid_hit(
                        elements@,
                        threshold,
                        #[trigger] hits@[h],
                    ),
                forall|c1: int, c2: int|
                    0 <= c1 < c2 < cands@.len() ==> (#[trigger] cands@[c1])._id != (
                    #[trigger] cands@[c2])._id,
                forall|h1: int, h2: int|
                    0 <= h1 < h2 < hits@.len() ==> (#[trigger] hits@[h1]).1 != (
                    #[trigger] hits@[h2]).1,
                forall|h: int|
                    0 <= h < hits@.len() ==> exists|cc: int|
                        0 <= cc < c && (#[trigger] cands@[cc])._id == (#[trigger] hits@[h]).1,
                complete ==> forall|kk: int|
                    (0 <= kk < d0.len() && self.spec_is_candidate(elements@, kk)
                        && self.spec_passes(elements@, kk, threshold)) ==> (exists|h: int|
                        0 <= h < hits@.len() && hits@[h].1 == (#[trigger] d0[kk]).did) || (
                    exists|cc: int|
                        c <= cc < cands@.len() && cands@[cc]._id == d0[kk].did),
            decreases cands@.len() - c,
        {
            let ghost kw = choose|kk: int|
                {
                    &&& 0 <= kk < self.data_coll@.len()
                    &&& (#[trigger] self.data_coll@[kk]).did == cands@[c as int]._id
                    &&& cands@[c as int].data.did == cands@[c as int]._id
                    &&& cands@[c as int].data.eles@ == self.data_coll@[kk].eles@
                    &&& cands@[c as int].count as int == spec_match_count(
                        self.spec_query_bands(elements@),
                        self.spec_doc_bands(kk),
                        self.spec_num_bands(),
                    )
                    &&& cands@[c as int].count >= 1
                };
            let sim: Similarity = jaccard_similarity(q.as_slice(), cands[c].data.eles.as_slice());
            proof {
                assert(sim == self.spec_query_sim(elements@, kw));
            }
            let keep: bool = match threshold {
                None => true,
                Some(t) => meets_threshold(sim, t),
            };
            let ghost hits0 = hits@;
            if keep {
                let did: u64 = cands[c]._id;
                hits.push((sim, did));
                proof {
                    assert(self.spec_valid_hit(elements@, threshold, hits@.last())) by {
                        assert(0 <= kw < self.data_coll@.len() && self.data_coll@[kw].did
                            == hits@.last().1 && hits@.last().0 == self.spec_query_sim(
                            elements@,
                            kw,
                        ) && self.spec_is_candidate(elements@, kw));
                    }
                    assert forall|h1: int, h2: int| 0 <= h1 < h2 < hits@.len() implies (
                    #[trigger] hits@[h1]).1 != (#[trigger] hits@[h2]).1 by {
                        if h2 == hits@.len() - 1 {
                            let cc = choose|cc: int|
                                0 <= cc < c && (#[trigger] cands@[cc])._id == hits0[h1].1;
                            assert(cands@[cc]._id != cands@[c as int]._id);
                        }
                    }
                    assert forall|h: int| 0 <= h < hits@.len() implies exists|cc: int|
                        0 <= cc < c + 1 && (#[trigger] cands@[cc])._id == (
                    #[trigger] hits@[h]).1 by {
                        if h < hits@.len() - 1 {
                            let cc = choose|cc: int|
                                0 <= cc < c && (#[trigger] cands@[cc])._id == hits0[h].1;
                            assert(cands@[cc]._id == hits@[h].1);
                        } else {
                            assert(cands@[c as int]._id == hits@[h].1);
                        }
                    }
                }
            }
            proof {
                if complete {
                    assert forall|kk: int|
                        (0 <= kk < d0.len() && self.spec_is_candidate(elements@, kk)
                            && self.spec_passes(elements@, kk, threshold)) implies (exists|h: int|
                        0 <= h < hits@.len() && hits@[h].1 == (#[trigger] d0[kk]).did) || (
                    exists|cc: int|
                        c + 1 <= cc < cands@.len() && cands@[cc]._id == d0[kk].did) by {
                        if exists|h: int| 0 <= h < hits0.len() && hits0[h].1 == d0[kk].did {
                            let h = choose|h: int|
                                0 <= h < hits0.len() && hits0[h].1 == d0[kk].did;
                            assert(hits@[h] == hits0[h]);
                        } else {
                            let cc = choose|cc: int|
                                c <= cc < cands@.len() && (#[trigger] cands@[cc])._id
                                    == d0[kk].did;
                            if cc == c {
                                assert(kk == kw) by {
                                    if kk < kw {
                                        assert(d0[kk].did != d0[kw].did);
                                    } else if kw < kk {
                                        assert(d0[kw].did != d0[kk].did);
                                    }
                                }
                                assert(keep);
                                assert(hits@.last().1 == d0[kk].did);
                            }
                        }
                    }
                }
            }
            c += 1;
        }
        let ghost hits1 = hits@;
        insertion_sort_descending(&mut hits);
        proof {
            broadcast use vstd::seq_lib::to_multiset_contains;

            lemma_perm_distinct_keys(hits1, hits@, |h: (Similarity, u64)| h.1);
            assert forall|h: int| 0 <= h < hits@.len() implies self.spec_valid_hit(
                elements@,
                threshold,
                #[trigger] hits@[h],
            ) by {
                assert(hits@.contains(hits@[h]));
                assert(hits@.to_multiset().count(hits@[h]) > 0);
                assert(hits1.contains(hits@[h]));
                let idx = choose|idx: int| 0 <= idx < hits1.len() && hits1[idx] == hits@[h];
                assert(self.spec_valid_hit(elements@, threshold, hits1[idx]));
            }
            if complete {
                assert forall|kk: int|
                    (0 <= kk < d0.len() && self.spec_is_candidate(elements@, kk)
                        && self.spec_passes(elements@, kk, threshold)) implies exists|i: int|
                    0 <= i < hits@.len() && hits@[i].1 == (#[trigger] d0[kk]).did by {
                    let h1 = choose|h1: int| 0 <= h1 < hits1.len() && hits1[h1].1 == d0[kk].did;
                    assert(hits1.contains(hits1[h1]));
                    assert(hits1.to_multiset().count(hits1[h1]) > 0);
                    assert(hits@.contains(hits1[h1]));
                    let h2 = choose|h2: int| 0 <= h2 < hits@.len() && hits@[h2] == hits1[h1];
                    assert(hits@[h2].1 == d0[kk].did);
                }
            }
        }
        let ghost sorted_hits = hits@;
        match top_k {
            Some(kk) => {
                if hits.len() > kk {
                    proof {
                        assert(!complete);
                    }
                    hits.truncate(kk);
                    proof {
                        assert(forall|i: int|
                            0 <= i < hits@.len() ==> hits@[i] == sorted_hits[i]);
                        assert forall|i: int, j: int| 0 <= i < j < hits@.len() implies hits@[i].1
                            != hits@[j].1 by {
                            assert(hits@[i] == sorted_hits[i] && hits@[j] == sorted_hits[j]);
                        }
                    }
                }
            },
            None => {},
        }
        hits
    }
}

impl MinhashDB {
    /// Hashes each line into one 32-bit token with the fixed-seed hash and
    /// stores the resulting token set under `document`, exactly as
    /// `insert_or_update_raw` does. Returns the replaced record, if any.
    pub fn insert_or_update_lines(&mut self, document: u64, elements: &Vec<String>) -> (r: Option<
        DataEntry,
    >)
        requires
            old(self).wf(),
            elements@.len() > 0,
            elements@.len() <= usize::MAX / 2,
        ensures
            final(self).wf(),
            final(self).options == old(self).options,
            final(self).data_coll@.len() >= 1,
            (final(self).data_coll@.last().did == document),
            (final(self).data_coll@.last().eles@ == spec_dedup(spec_line_tokens(elements@))),
            match r {
                Some(e) => exists|k: int|
                    {
                        &&& 0 <= k < old(self).data_coll@.len()
                        &&& (#[trigger] old(self).data_coll@[k]).did == document
                        &&& e.did == document
                        &&& e.eles@ == old(self).data_coll@[k].eles@
                        &&& final(self).data_coll@ == old(self).data_coll@.remove(k).push(
                            final(self).data_coll@.last(),
                        )
                    },
                None => (forall|k: int|
                    0 <= k < old(self).data_coll@.len() ==> (#[trigger] old(
                        self,
                    ).data_coll@[k]).did != document) && final(self).data_coll@ == old(
                    self,
                ).data_coll@.push(final(self).data_coll@.last()),
            },
    {
        let hashes = hash_lines(elements);
        self.insert_or_update_raw(document, hashes.as_slice())
    }

    /// Hashes each line into one 32-bit token and runs the
    /// approximate-nearest-neighbor query of `find_ann_raw` on the result,
    /// with the same guarantees: exact re-scoring, sorted distinct hits, the
    /// `top_k` bound, completeness when the pre-truncation cannot drop
    /// anyone, and no hits at all for an empty query.
    pub fn find_ann_lines(&self, elements: &Vec<String>, top_k: Option<usize>, threshold: Option<
        Ratio,
    >) -> (r: Vec<(Similarity, u64)>)
        requires
            self.wf(),
            elements@.len() <= usize::MAX / 2,
            match threshold {
                Some(t) => t.wf(),
                None => true,
            },
        ensures
            match top_k {
                Some(kk) => r@.len() <= kk,
                None => true,
            },
            elements@.len() == 0 ==> r@.len() == 0,
            forall|i: int|
                0 <= i < r@.len() ==> self.spec_valid_hit(
                    spec_line_tokens(elements@),
                    threshold,
                    #[trigger] r@[i],
                ),
            forall|i: int, j: int| 0 <= i < j < r@.len() ==> !hit_lt(r@[i], r@[j]),
            forall|i: int, j: int| 0 <= i < j < r@.len() ==> r@[i].1 != r@[j].1,
            self.spec_no_pretruncation(spec_line_tokens(elements@), top_k) && elements@.len() > 0
                ==> forall|k: int|
                (0 <= k < self.data_coll@.len() && self.spec_is_candidate(
                    spec_line_tokens(elements@),
                    k,
                ) && self.spec_passes(spec_line_tokens(elements@), k, threshold)) ==> exists|
                    i: int,
                |
                    0 <= i < r@.len() && r@[i].1 == (#[trigger] self.data_coll@[k]).did,
    {
        let hashes = hash_lines(elements);
        self.find_ann_raw(hashes.as_slice(), top_k, threshold)
    }
}

/// Insert-then-lookup round trip: in an index whose newest record was just
/// stored under `document` with token set `elements` — which is what
/// `insert_or_update_raw` ensures — the id is stored, and every record under
/// it (there is exactly one, by id-uniqueness) holds exactly that token set,
/// so `find_exact(document)` returns a record with those tokens.
pub proof fn lemma_insert_then_find_exact(db: MinhashDB, document: u64, elements: Seq<i32>)
    requires
        db.wf(),
        db.data_coll@.len() >= 1,
        db.data_coll@.last().did == document,
        db.data_coll@.last().eles@.to_set() == elements.to_set(),
    ensures
        exists|k: int|
            0 <= k < db.data_coll@.len() && (#[trigger] db.data_coll@[k]).did == document,
        forall|k: int|
            0 <= k < db.data_coll@.len() && (#[trigger] db.data_coll@[k]).did == document
                ==> db.data_coll@[k].eles@.to_set() == elements.to_set(),
{
    let last = db.data_coll@.len() - 1;
    assert(db.data_coll@[last].did == document);
    assert forall|k: int|
        0 <= k < db.data_coll@.len() && (#[trigger] db.data_coll@[k]).did
            == document implies db.data_coll@[k].eles@.to_set() == elements.to_set() by {
        if k < last {
            assert(db.data_coll@[k].did != db.data_coll@[last].did);
        }
    }
}

/// Hashes each line of text into one 32-bit token with the fixed-seed hash.
fn hash_lines(elements: &Vec<String>) -> (r: Vec<i32>)
    ensures
        r@ == spec_line_tokens(elements@),
{
    let mut hashes: Vec<i32> = Vec::new();
    let mut i: usize = 0;
    while i < elements.len()
        invariant
            i <= elements@.len(),
            hashes@.len() == i,
            forall|m: int|
                0 <= m < i ==> hashes@[m] == line_hash_of(WYHASH_SEED, elements@[m]@),
        decreases elements@.len() - i,
    {
        hashes.push(calculate_hash_str(elements[i].as_str()));
        i += 1;
    }
    proof {
        assert(hashes@ =~= spec_line_tokens(elements@));
    }
    hashes
}

} // verus!