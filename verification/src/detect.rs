//! The change detector: snapshot each selected file's state before the tool
//! runs, compare against a fresh probe afterwards, and report the files the
//! tool silently rewrote.
//!
//! A probe is a plain record of what a stat and an optional content read
//! found; taking probes is the caller's side of the bargain, so everything
//! here is decided — and proved — over plain values. The content digest comes
//! from the `sha2` crate.

use vstd::prelude::*;
use crate::strutil::str_views;

verus! {

/// What probing one path found: its modification time in nanoseconds since
/// the epoch, where the metadata could be read, and its content, where a read
/// was requested and succeeded.
pub struct FileProbe {
    pub mtime_nanos: Option<u128>,
    pub content: Option<Vec<u8>>,
}

/// The state of one file captured before execution: always the modification
/// time, and the content digest when content hashing is configured.
pub struct Snapshot {
    pub path: String,
    pub mtime_nanos: u128,
    pub digest: Option<Vec<u8>>,
}

/// The digest of a byte string: a function of the bytes alone.
pub uninterp spec fn sha256_of(data: Seq<u8>) -> Seq<u8>;

/// Relies on `sha2::Sha256`: the digest is determined by the input bytes and
/// is 32 bytes long.
#[verifier::external_body]
fn sha256_digest(data: &Vec<u8>) -> (r: Vec<u8>)
    ensures
        r@ == sha256_of(data@),
        r@.len() == 32,
{
    <sha2::Sha256 as sha2::Digest>::digest(data.as_slice()).to_vec()
}

/// A snapshot could not be taken for a path: its metadata could not be read,
/// or content hashing was configured and its content could not.
#[derive(Debug)]
pub struct SnapshotError {
    pub path: String,
}

/// Whether a fresh probe still matches a snapshot: with a digest captured,
/// the probed content hashes to it; without one, the probed modification
/// time equals the captured one. A path whose probe failed (it no longer
/// exists, or cannot be read) never matches.
pub open spec fn probe_matches_snapshot(s: Snapshot, p: FileProbe) -> bool {
    match s.digest {
        Option::Some(d) => match p.content {
            Option::Some(c) => d@ == sha256_of(c@),
            Option::None => false,
        },
        Option::None => match p.mtime_nanos {
            Option::Some(t) => t == s.mtime_nanos,
            Option::None => false,
        },
    }
}

/// Compare two byte vectors.
fn bytes_eq(a: &Vec<u8>, b: &Vec<u8>) -> (r: bool)
    ensures
        r == (a@ == b@),
{
    if a.len() != b.len() {
        proof {
            assert(a@ != b@);
        }
        return false;
    }
    let mut i: usize = 0;
    while i < a.len()
        invariant
            a@.len() == b@.len(),
            i <= a@.len(),
            forall|k: int| 0 <= k < i ==> a@[k] == b@[k],
        decreases a@.len() - i,
    {
        if a[i] != b[i] {
            return false;
        }
        i = i + 1;
    }
    proof {
        assert(a@ =~= b@);
    }
    true
}

/// Capture the snapshot of one path from its probe: the modification time
/// always, the content digest when hashing is configured. Fails exactly when
/// the probe is missing what the snapshot needs.
pub fn snapshot_new(path: String, probe: &FileProbe, use_hash: bool) -> (r: Result<
    Snapshot,
    SnapshotError,
>)
    ensures
        r is Ok <==> probe.mtime_nanos is Some && (use_hash ==> probe.content is Some),
        r matches Ok(s) ==> {
            &&& s.path == path
            &&& Some(s.mtime_nanos) == probe.mtime_nanos
            &&& (use_hash ==> (s.digest matches Some(d) && d@ == sha256_of(
                probe.content.unwrap()@,
            )))
            &&& (!use_hash ==> s.digest is None)
        },
        r matches Err(e) ==> e.path == path,
{
    let mtime = match probe.mtime_nanos {
        Option::Some(t) => t,
        Option::None => {
            return Err(SnapshotError { path });
        },
    };
    let digest = if use_hash {
        match &probe.content {
            Option::Some(c) => Option::Some(sha256_digest(c)),
            Option::None => {
                return Err(SnapshotError { path });
            },
        }
    } else {
        Option::None
    };
    Ok(Snapshot { path, mtime_nanos: mtime, digest })
}

/// Decide whether a fresh probe still matches a snapshot.
pub fn is_same(s: &Snapshot, p: &FileProbe) -> (r: bool)
    ensures
        r == probe_matches_snapshot(*s, *p),
{
    match &s.digest {
        Option::Some(d) => match &p.content {
            Option::Some(c) => {
                let h = sha256_digest(c);
                bytes_eq(d, &h)
            },
            Option::None => false,
        },
        Option::None => match &p.mtime_nanos {
            Option::Some(t) => *t == s.mtime_nanos,
            Option::None => false,
        },
    }
}

/// The paths whose post-execution probe no longer matches their snapshot, in
/// snapshot order.
pub open spec fn modified_paths(snaps: Seq<Snapshot>, probes: Seq<FileProbe>) -> Seq<Seq<char>>
    decreases snaps.len(),
{
    if snaps.len() == 0 || probes.len() == 0 {
        Seq::empty()
    } else {
        let rest = modified_paths(snaps.drop_first(), probes.drop_first());
        if !probe_matches_snapshot(snaps.first(), probes.first()) {
            seq![snaps.first().path@] + rest
        } else {
            rest
        }
    }
}

/// Report exactly the files whose post-execution state differs from their
/// snapshot, in order. Detection is observational: nothing is restored.
pub fn detect_modified(snaps: &Vec<Snapshot>, probes: &Vec<FileProbe>) -> (r: Vec<String>)
    requires
        snaps@.len() == probes@.len(),
    ensures
        str_views(r@) == modified_paths(snaps@, probes@),
{
    let mut r: Vec<String> = Vec::new();
    let mut i: usize = 0;
    proof {
        assert(snaps@.skip(0) == snaps@);
        assert(probes@.skip(0) == probes@);
        assert(str_views(r@) =~= Seq::<Seq<char>>::empty());
    }
    while i < snaps.len()
        invariant
            snaps@.len() == probes@.len(),
            i <= snaps@.len(),
            modified_paths(snaps@, probes@) == str_views(r@) + modified_paths(
                snaps@.skip(i as int),
                probes@.skip(i as int),
            ),
        decreases snaps@.len() - i,
    {
        proof {
            assert(snaps@.skip(i as int).first() == snaps@[i as int]);
            assert(probes@.skip(i as int).first() == probes@[i as int]);
            assert(snaps@.skip(i as int).drop_first() =~= snaps@.skip(i + 1));
            assert(probes@.skip(i as int).drop_first() =~= probes@.skip(i + 1));
        }
        let ghost prev = r@;
        if !is_same(&snaps[i], &probes[i]) {
            r.push(snaps[i].path.clone());
            proof {
                assert(str_views(r@) =~= str_views(prev).push(snaps@[i as int].path@));
                assert(str_views(prev) + (seq![snaps@[i as int].path@] + modified_paths(
                    snaps@.skip(i + 1),
                    probes@.skip(i + 1),
                )) =~= str_views(r@) + modified_paths(snaps@.skip(i + 1), probes@.skip(i + 1)));
            }
        }
        i = i + 1;
    }
    proof {
        assert(snaps@.skip(snaps@.len() as int) =~= Seq::<Snapshot>::empty());
        assert(str_views(r@) + Seq::<Seq<char>>::empty() =~= str_views(r@));
    }
    r
}

/// Law: a probe equal to the one a snapshot was captured from always matches
/// the snapshot, under either comparison mode. An execution that leaves every
/// file exactly as probed therefore reports nothing as modified.
pub proof fn lemma_fresh_snapshot_matches(s: Snapshot, p: FileProbe, use_hash: bool)
    requires
        Some(s.mtime_nanos) == p.mtime_nanos,
        use_hash ==> (s.digest matches Some(d) && p.content matches Some(c) && d@ == sha256_of(
            c@,
        )),
        !use_hash ==> s.digest is None,
    ensures
        probe_matches_snapshot(s, p),
{
}

/// Law: when every probe still matches its snapshot, nothing is reported.
pub proof fn lemma_unchanged_nothing_modified(snaps: Seq<Snapshot>, probes: Seq<FileProbe>)
    requires
        snaps.len() == probes.len(),
        forall|j: int|
            0 <= j < snaps.len() ==> probe_matches_snapshot(#[trigger] snaps[j], probes[j]),
    ensures
        modified_paths(snaps, probes) == Seq::<Seq<char>>::empty(),
    decreases snaps.len(),
{
    if snaps.len() > 0 {
        assert(forall|j: int|
            0 <= j < snaps.drop_first().len() ==> #[trigger] snaps.drop_first()[j] == snaps[j + 1]
                && probes.drop_first()[j] == probes[j + 1]);
        lemma_unchanged_nothing_modified(snaps.drop_first(), probes.drop_first());
    }
}

/// Law: a file whose probe no longer matches its snapshot is reported.
pub proof fn lemma_changed_is_reported(snaps: Seq<Snapshot>, probes: Seq<FileProbe>, j: int)
    requires
        snaps.len() == probes.len(),
        0 <= j < snaps.len(),
        !probe_matches_snapshot(snaps[j], probes[j]),
    ensures
        modified_paths(snaps, probes).contains(snaps[j].path@),
    decreases snaps.len(),
{
    let m = modified_paths(snaps, probes);
    let mt = modified_paths(snaps.drop_first(), probes.drop_first());
    let off: int = if !probe_matches_snapshot(snaps.first(), probes.first()) {
        1
    } else {
        0
    };
    if j == 0 {
        assert(m[0] == snaps[0].path@);
    } else {
        assert(snaps.drop_first()[j - 1] == snaps[j]);
        assert(probes.drop_first()[j - 1] == probes[j]);
        lemma_changed_is_reported(snaps.drop_first(), probes.drop_first(), j - 1);
        let k = choose|k: int| 0 <= k < mt.len() && mt[k] == snaps.drop_first()[j - 1].path@;
        assert(m[k + off] == mt[k]);
    }
}

/// Law: only a file whose probe no longer matches its snapshot is reported.
pub proof fn lemma_reported_is_changed(snaps: Seq<Snapshot>, probes: Seq<FileProbe>, p: Seq<char>)
    requires
        snaps.len() == probes.len(),
        forall|j: int|
            0 <= j < snaps.len() && (#[trigger] snaps[j]).path@ == p ==> probe_matches_snapshot(
                snaps[j],
                probes[j],
            ),
    ensures
        !modified_paths(snaps, probes).contains(p),
    decreases snaps.len(),
{
    if snaps.len() > 0 {
        assert(forall|j: int|
            0 <= j < snaps.drop_first().len() ==> #[trigger] snaps.drop_first()[j] == snaps[j + 1]
                && probes.drop_first()[j] == probes[j + 1]);
        lemma_reported_is_changed(snaps.drop_first(), probes.drop_first(), p);
        let m = modified_paths(snaps, probes);
        let mt = modified_paths(snaps.drop_first(), probes.drop_first());
        if m.contains(p) {
            let i = choose|i: int| 0 <= i < m.len() && m[i] == p;
            if !probe_matches_snapshot(snaps.first(), probes.first()) {
                assert(snaps[0].path@ != p);
                if i == 0 {
                    assert(m[0] == snaps[0].path@);
                    assert(false);
                } else {
                    assert(m[i] == mt[i - 1]);
                    assert(mt.contains(p));
                    assert(false);
                }
            } else {
                assert(m == mt);
                assert(false);
            }
        }
    }
}

} // verus!
