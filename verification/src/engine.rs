//! The pipe engine: delivery order among pending data records and the
//! cursor discipline of a handle.
//!
//! A data record is one file in the pipe directory; the engine sees it as
//! its file name and its creation timestamp.  Records are delivered oldest
//! first, by creation time, with ties broken by name so that delivery is
//! deterministic; only records strictly newer than the consumer's local
//! cursor are pending.

use vstd::prelude::*;

use crate::manifest::Manifest;
use crate::manifest::manifest_name;
use crate::manifest::spec_encode;

verus! {

/// One pending data record, as a directory scan reports it: the file
/// name (the manifest file itself is never among these) and the file's
/// creation timestamp in nanoseconds since the Unix epoch.
#[verifier::ext_equal]
pub struct DataEntry {
    pub name: Vec<u8>,
    pub created: u64,
}

/// Strict lexicographic order on byte strings.
pub open spec fn lex_lt(a: Seq<u8>, b: Seq<u8>) -> bool
    decreases a.len(),
{
    if b.len() == 0 {
        false
    } else if a.len() == 0 {
        true
    } else if a[0] < b[0] {
        true
    } else if a[0] > b[0] {
        false
    } else {
        lex_lt(a.skip(1), b.skip(1))
    }
}

/// Delivery priority: strictly older records come first; among records
/// created in the same clock instant, the lexicographically smaller name
/// comes first.
pub open spec fn entry_before(a: DataEntry, b: DataEntry) -> bool {
    a.created < b.created || (a.created == b.created && lex_lt(a.name@, b.name@))
}

/// Whether a record is pending for a consumer whose effective cursor is
/// `eff`: only records created strictly after the cursor are delivered.
pub open spec fn qualifies(e: DataEntry, eff: u64) -> bool {
    e.created > eff
}

/// The record to deliver out of `s` under effective cursor `eff`: the
/// first index holding a minimal pending record in the `entry_before`
/// order, or `None` when nothing is pending.
pub open spec fn spec_select(s: Seq<DataEntry>, eff: u64) -> Option<int>
    decreases s.len(),
{
    if s.len() == 0 {
        None
    } else {
        let prev = spec_select(s.drop_last(), eff);
        let last = s[s.len() - 1];
        if qualifies(last, eff) {
            match prev {
                None => Some(s.len() - 1),
                Some(i) => if entry_before(last, s[i]) {
                    Some(s.len() - 1)
                } else {
                    prev
                },
            }
        } else {
            prev
        }
    }
}

/// Lexicographic order is transitive.
proof fn lemma_lex_lt_trans(a: Seq<u8>, b: Seq<u8>, c: Seq<u8>)
    requires
        lex_lt(a, b),
        lex_lt(b, c),
    ensures
        lex_lt(a, c),
    decreases a.len(),
{
    if a.len() != 0 {
        if a[0] == b[0] && b[0] == c[0] {
            lemma_lex_lt_trans(a.skip(1), b.skip(1), c.skip(1));
        }
    }
}

/// Lexicographic order is irreflexive.
proof fn lemma_lex_lt_irrefl(a: Seq<u8>)
    ensures
        !lex_lt(a, a),
    decreases a.len(),
{
    if a.len() > 0 {
        lemma_lex_lt_irrefl(a.skip(1));
    }
}

/// No record has a strictly higher delivery priority than itself.
proof fn lemma_entry_before_irrefl(a: DataEntry)
    ensures
        !entry_before(a, a),
{
    lemma_lex_lt_irrefl(a.name@);
}

/// Delivery priority is transitive.
proof fn lemma_entry_before_trans(a: DataEntry, b: DataEntry, c: DataEntry)
    requires
        entry_before(a, b),
        entry_before(b, c),
    ensures
        entry_before(a, c),
{
    if a.created == b.created && b.created == c.created {
        lemma_lex_lt_trans(a.name@, b.name@, c.name@);
    }
}

/// What selection guarantees: a selected record is pending and no pending
/// record has a strictly higher delivery priority, and selection comes up
/// empty only when no record is pending.
pub proof fn lemma_select_properties(s: Seq<DataEntry>, eff: u64)
    ensures
        spec_select(s, eff) matches Some(i) ==> 0 <= i < s.len() && qualifies(s[i], eff) && (
        forall|j: int|
            0 <= j < s.len() && qualifies(#[trigger] s[j], eff) ==> !entry_before(s[j], s[i])),
        spec_select(s, eff) is None ==> forall|j: int|
            0 <= j < s.len() ==> !qualifies(#[trigger] s[j], eff),
    decreases s.len(),
{
    if s.len() > 0 {
        let t = s.drop_last();
        lemma_select_properties(t, eff);
        let last = s[s.len() - 1];
        lemma_entry_before_irrefl(last);
        assert(forall|j: int| 0 <= j < t.len() ==> t[j] == s[j]);
        match spec_select(t, eff) {
            None => {},
            Some(i) => {
                if qualifies(last, eff) && entry_before(last, s[i]) {
                    assert forall|j: int|
                        0 <= j < s.len() && qualifies(#[trigger] s[j], eff) implies !entry_before(
                        s[j],
                        last,
                    ) by {
                        if j < s.len() - 1 && entry_before(s[j], last) {
                            lemma_entry_before_trans(s[j], last, s[i]);
                        }
                    }
                }
            },
        }
    }
}

/// Strict lexicographic comparison of two byte strings.
fn lex_less(a: &Vec<u8>, b: &Vec<u8>) -> (r: bool)
    ensures
        r == lex_lt(a@, b@),
{
    let mut i: usize = 0;
    proof {
        assert(a@.skip(0) =~= a@);
        assert(b@.skip(0) =~= b@);
    }
    while i < a.len() && i < b.len()
        invariant
            i <= a@.len(),
            i <= b@.len(),
            lex_lt(a@, b@) == lex_lt(a@.skip(i as int), b@.skip(i as int)),
        decreases a@.len() - i,
    {
        proof {
            assert(a@.skip(i as int)[0] == a@[i as int]);
            assert(b@.skip(i as int)[0] == b@[i as int]);
            assert(a@.skip(i as int).skip(1) =~= a@.skip(i as int + 1));
            assert(b@.skip(i as int).skip(1) =~= b@.skip(i as int + 1));
        }
        if a[i] < b[i] {
            return true;
        }
        if a[i] > b[i] {
            return false;
        }
        i += 1;
    }
    proof {
        assert(a@.skip(i as int).len() == a@.len() - i);
        assert(b@.skip(i as int).len() == b@.len() - i);
    }
    i == a.len() && i < b.len()
}

/// Pick the record to deliver: the oldest pending entry, ties broken by
/// name, exactly as `spec_select` says.
pub fn select_entry(entries: &Vec<DataEntry>, eff: u64) -> (r: Option<usize>)
    ensures
        r matches Some(i) ==> i < entries@.len() && spec_select(entries@, eff) == Some(i as int),
        r is None ==> spec_select(entries@, eff) is None,
{
    let mut best: Option<usize> = None;
    let mut idx: usize = 0;
    while idx < entries.len()
        invariant
            idx <= entries@.len(),
            match best {
                Some(b) => b < idx && spec_select(entries@.take(idx as int), eff) == Some(b as int),
                None => spec_select(entries@.take(idx as int), eff) is None,
            },
        decreases entries@.len() - idx,
    {
        let e = &entries[idx];
        proof {
            assert(entries@.take(idx as int + 1).drop_last() =~= entries@.take(idx as int));
            assert(entries@.take(idx as int + 1)[idx as int] == entries@[idx as int]);
        }
        if e.created > eff {
            match best {
                None => {
                    best = Some(idx);
                },
                Some(b) => {
                    let cur = &entries[b];
                    if e.created < cur.created || (e.created == cur.created && lex_less(
                        &e.name,
                        &cur.name,
                    )) {
                        best = Some(idx);
                    }
                },
            }
        }
        idx += 1;
    }
    proof {
        assert(entries@.take(entries@.len() as int) =~= entries@);
    }
    best
}

/// The bytes of `.bin`, the suffix of every data-file name.
pub open spec fn bin_suffix() -> Seq<u8> {
    seq![46u8, 98u8, 105u8, 110u8]
}

pub open spec fn is_hex_digit(b: u8) -> bool {
    (48 <= b <= 57) || (97 <= b <= 102)
}

/// The shape of a generated data-file name: lowercase hex digits, then
/// `.bin`.
pub open spec fn is_data_name(s: Seq<u8>) -> bool {
    &&& s.len() >= 5
    &&& s.subrange(s.len() - 4, s.len() as int) == bin_suffix()
    &&& forall|j: int| 0 <= j < s.len() - 4 ==> is_hex_digit(#[trigger] s[j])
}

/// A data-file name never collides with the manifest file's name.
pub proof fn lemma_data_name_not_manifest(s: Seq<u8>)
    requires
        is_data_name(s),
    ensures
        s != manifest_name(),
{
    if s == manifest_name() {
        assert(s.subrange(s.len() - 4, s.len() as int)[0] == s[4]);
        assert(manifest_name()[4] == 102);
        assert(bin_suffix()[0] == 46);
    }
}

pub open spec fn hex_digit_byte(d: u64) -> u8 {
    if d < 10 {
        (48 + d) as u8
    } else {
        (87 + d) as u8
    }
}

/// Hex digits of `n` in ASCII, most significant first, lowercase.
pub open spec fn hex_digits(n: u64) -> Seq<u8>
    decreases n,
{
    if n < 16 {
        seq![hex_digit_byte(n)]
    } else {
        hex_digits((n / 16) as u64).push(hex_digit_byte(n % 16))
    }
}

proof fn lemma_hex_digits_form(n: u64)
    ensures
        hex_digits(n).len() >= 1,
        forall|i: int| 0 <= i < hex_digits(n).len() ==> is_hex_digit(#[trigger] hex_digits(n)[i]),
    decreases n,
{
    if n >= 16 {
        lemma_hex_digits_form((n / 16) as u64);
    }
}

fn hex_digit_of(d: u64) -> (r: u8)
    requires
        d < 16,
    ensures
        r == hex_digit_byte(d),
{
    if d < 10 {
        (48 + d) as u8
    } else {
        (87 + d) as u8
    }
}

fn hex_of(n: u64) -> (r: Vec<u8>)
    ensures
        r@ == hex_digits(n),
    decreases n,
{
    if n < 16 {
        let mut v: Vec<u8> = Vec::new();
        v.push(hex_digit_of(n));
        proof {
            assert(v@ =~= hex_digits(n));
        }
        v
    } else {
        let mut v = hex_of(n / 16);
        v.push(hex_digit_of(n % 16));
        proof {
            assert(v@ =~= hex_digits(n));
        }
        v
    }
}

/// Relies on rand::random: one draw from the thread-local generator;
/// which value comes back is not assumed.
#[verifier::external_body]
fn random_u64() -> u64 {
    rand::random()
}

/// A collision-resistant name for a new data file: the hex digits of a
/// random value, then `.bin`.  Such a name is never the manifest's.
pub fn generate_data_id() -> (r: Vec<u8>)
    ensures
        is_data_name(r@),
{
    let n = random_u64();
    let mut v = hex_of(n);
    proof {
        lemma_hex_digits_form(n);
    }
    let ghost h = v@;
    v.push(46);
    v.push(98);
    v.push(105);
    v.push(110);
    proof {
        assert(v@.subrange(v@.len() - 4, v@.len() as int) =~= bin_suffix());
        assert(forall|j: int| 0 <= j < v@.len() - 4 ==> v@[j] == h[j]);
    }
    v
}

/// Everything one push writes: the name of the new data file, its byte
/// payload (the whole file content, verbatim), and the manifest bytes
/// whose atomic rename onto the manifest path publishes the record.
pub struct PushPlan {
    pub data_name: Vec<u8>,
    pub payload: Vec<u8>,
    pub manifest_bytes: Vec<u8>,
}

/// A producer or consumer handle bound to one pipe directory: the local
/// cursor (a cached manifest, unset at attachment) and an artificial
/// write latency, in milliseconds, used to widen race windows in tests.
pub struct HyperPipe {
    pub manifest: Manifest,
    pub lag_ms: u64,
}

/// The effective cursor of a consumer: the Unix epoch when it has never
/// pulled in this attachment, so that every present record is pending.
pub open spec fn spec_eff_cursor(c: Option<u64>) -> u64 {
    match c {
        None => 0,
        Some(t) => t,
    }
}

/// Whether a pull must scan the directory: always on the first pull of an
/// attachment, otherwise only when the on-disk manifest records a
/// strictly newer delivery than the local cursor.
pub open spec fn spec_wants_scan(local: Option<u64>, disk: Option<u64>) -> bool {
    ||| local is None
    ||| (local matches Some(l) && disk matches Some(d) && l < d)
}

/// The whole pull decision: nothing is delivered without a scan;
/// otherwise the oldest pending record, per `spec_select`.
pub open spec fn spec_pull(local: Option<u64>, disk: Option<u64>, s: Seq<DataEntry>) -> Option<
    int,
> {
    if spec_wants_scan(local, disk) {
        spec_select(s, spec_eff_cursor(local))
    } else {
        None
    }
}

impl HyperPipe {
    /// Attach a handle to a pipe directory.  The local cursor starts
    /// unset whatever the on-disk manifest holds: a fresh attachment
    /// redelivers the whole backlog, the deliberate at-least-once
    /// semantic scoped per process attachment.
    pub fn new(lag_ms: u64) -> (r: Self)
        ensures
            r.manifest.latest is None,
            r.lag_ms == lag_ms,
    {
        HyperPipe { manifest: Manifest { latest: None }, lag_ms }
    }

    /// Plan a push of `data` at time `ts`, taken before the data file is
    /// written so that it bounds the record's creation time from below.
    /// The payload passes through verbatim; the data file gets a fresh
    /// random name that can never collide with the manifest file; the
    /// manifest bytes record `ts`; and the local cursor moves to `ts`,
    /// mirroring what the rename publishes.
    pub fn push(&mut self, data: Vec<u8>, ts: u64) -> (r: PushPlan)
        ensures
            r.payload@ == data@,
            r.manifest_bytes@ == spec_encode((Manifest { latest: Some(ts) })),
            is_data_name(r.data_name@),
            r.data_name@ != manifest_name(),
            final(self).manifest.latest == Some(ts),
            final(self).lag_ms == old(self).lag_ms,
    {
        let data_name = generate_data_id();
        proof {
            lemma_data_name_not_manifest(data_name@);
        }
        let manifest_bytes = self.manifest.update(ts);
        PushPlan { data_name, payload: data, manifest_bytes }
    }

    /// Decide a pull against the freshly loaded on-disk manifest and the
    /// scanned directory listing (every regular file but the manifest,
    /// each with its creation time).  Returns the index of the record to
    /// deliver, or `None` when nothing is pending — never a failure.  The
    /// cursor does not move here: it moves only once the caller has read
    /// and removed the record (`finish_pull`), so a failed delivery never
    /// advances it.
    pub fn pull(&self, disk: &Manifest, entries: &Vec<DataEntry>) -> (r: Option<usize>)
        ensures
            r matches Some(i) ==> i < entries@.len() && spec_pull(
                self.manifest.latest,
                disk.latest,
                entries@,
            ) == Some(i as int),
            r is None ==> spec_pull(self.manifest.latest, disk.latest, entries@) is None,
    {
        let scan = match (self.manifest.latest, disk.latest) {
            (None, _) => true,
            (Some(l), Some(d)) => l < d,
            (Some(_), None) => false,
        };
        if !scan {
            return None;
        }
        let eff = match self.manifest.latest {
            None => 0,
            Some(t) => t,
        };
        select_entry(entries, eff)
    }

    /// Record a successful delivery: the local cursor moves to the
    /// delivered record's creation time.
    pub fn advance(&mut self, created: u64)
        ensures
            final(self).manifest.latest == Some(created),
            final(self).lag_ms == old(self).lag_ms,
    {
        self.manifest.latest = Some(created);
    }

    /// Complete a delivery after the record's file was read and removed:
    /// the payload — the file content — is handed back verbatim, and the
    /// cursor moves to the record's creation time.
    pub fn finish_pull(&mut self, entry: &DataEntry, payload: Vec<u8>) -> (r: Vec<u8>)
        ensures
            r@ == payload@,
            final(self).manifest.latest == Some(entry.created),
            final(self).lag_ms == old(self).lag_ms,
    {
        self.advance(entry.created);
        payload
    }
}

/// A record pushed into an otherwise empty directory is delivered by a
/// freshly attached consumer, whatever the on-disk manifest holds; with
/// `push` and `finish_pull` passing the payload through verbatim, a push
/// followed by a fresh consumer's pull returns exactly the bytes pushed.
pub proof fn lemma_round_trip(e: DataEntry, disk: Option<u64>)
    requires
        e.created >= 1,
    ensures
        spec_pull(None, disk, seq![e]) == Some(0int),
{
    let s = seq![e];
    assert(s.drop_last() =~= Seq::<DataEntry>::empty());
    assert(spec_select(s.drop_last(), 0) is None);
    assert(s[s.len() - 1] == e);
    assert(qualifies(e, 0));
    assert(spec_select(s, 0) == Some(0int));
}

/// Pulling when no record is pending yields "no data" — and never an
/// error or a suspension: the decision is total.
pub proof fn lemma_empty_pipe(local: Option<u64>, disk: Option<u64>, s: Seq<DataEntry>)
    requires
        forall|j: int| 0 <= j < s.len() ==> !qualifies(#[trigger] s[j], spec_eff_cursor(local)),
    ensures
        spec_pull(local, disk, s) is None,
{
    lemma_select_properties(s, spec_eff_cursor(local));
    match spec_select(s, spec_eff_cursor(local)) {
        Some(i) => {
            assert(qualifies(s[i], spec_eff_cursor(local)));
        },
        None => {},
    }
}

/// One consumer's successive successful pulls deliver records in strictly
/// increasing creation-time order, and each delivered record is the
/// oldest pending one at its pull: no pending record outranks it.
pub proof fn lemma_ordering(
    local: Option<u64>,
    d1: Option<u64>,
    s1: Seq<DataEntry>,
    d2: Option<u64>,
    s2: Seq<DataEntry>,
    i: int,
    j: int,
)
    requires
        spec_pull(local, d1, s1) == Some(i),
        spec_pull(Some(s1[i].created), d2, s2) == Some(j),
    ensures
        s2[j].created > s1[i].created,
        forall|k: int|
            0 <= k < s1.len() && qualifies(#[trigger] s1[k], spec_eff_cursor(local))
                ==> !entry_before(s1[k], s1[i]),
{
    lemma_select_properties(s1, spec_eff_cursor(local));
    lemma_select_properties(s2, s1[i].created);
}

/// The whole pull session of one consumer over a directory that receives
/// nothing further: each delivered record's creation time, in delivery
/// order, with the delivered file removed and the cursor advanced after
/// every pull, until a pull comes up empty.
pub open spec fn spec_drain(local: Option<u64>, disk: Option<u64>, s: Seq<DataEntry>) -> Seq<u64>
    decreases s.len(),
{
    match spec_pull(local, disk, s) {
        None => Seq::empty(),
        // A selected index is always in range; the bound keeps the
        // recursion visibly terminating.
        Some(i) => if 0 <= i < s.len() {
            seq![s[i].created] + spec_drain(Some(s[i].created), disk, s.remove(i))
        } else {
            Seq::empty()
        },
    }
}

/// The ordering contract the pipe promises, over a whole session: if the
/// present records carry pairwise distinct creation times, all pending
/// for the consumer and none newer than what the on-disk manifest
/// records, then successive pulls deliver every record exactly once, in
/// strictly increasing creation-time order.  In particular a freshly
/// attached consumer (`local == None`) drains the records pushed at times
/// t1 < t2 < ... < tn in exactly that order.
pub proof fn lemma_sequential_delivery(local: Option<u64>, top: u64, s: Seq<DataEntry>)
    requires
        forall|k: int| 0 <= k < s.len() ==> qualifies(#[trigger] s[k], spec_eff_cursor(local)),
        forall|k: int| 0 <= k < s.len() ==> (#[trigger] s[k]).created <= top,
        forall|k: int, l: int|
            0 <= k < s.len() && 0 <= l < s.len() && k != l ==> (#[trigger] s[k]).created != (
            #[trigger] s[l]).created,
    ensures
        spec_drain(local, Some(top), s).len() == s.len(),
        forall|a: int, b: int|
            0 <= a < b < spec_drain(local, Some(top), s).len() ==> #[trigger] spec_drain(
                local,
                Some(top),
                s,
            )[a] < #[trigger] spec_drain(local, Some(top), s)[b],
        forall|a: int|
            0 <= a < spec_drain(local, Some(top), s).len() ==> #[trigger] spec_drain(
                local,
                Some(top),
                s,
            )[a] > spec_eff_cursor(local),
        forall|k: int|
            0 <= k < s.len() ==> spec_drain(local, Some(top), s).contains(
                (#[trigger] s[k]).created,
            ),
    decreases s.len(),
{
    let r = spec_drain(local, Some(top), s);
    if s.len() == 0 {
        assert(spec_select(s, spec_eff_cursor(local)) is None);
        assert(r =~= Seq::<u64>::empty());
    } else {
        // The scan happens: the cursor lies strictly under some pending
        // record, which lies under the manifest's watermark.
        assert(spec_eff_cursor(local) < top);
        assert(spec_wants_scan(local, Some(top)));
        lemma_select_properties(s, spec_eff_cursor(local));
        let sel = spec_select(s, spec_eff_cursor(local));
        assert(sel is Some);
        let i = sel->0;
        let t = s[i].created;
        let rest = s.remove(i);
        s.remove_ensures(i);
        assert(spec_pull(local, Some(top), s) == Some(i));
        assert(r == seq![t] + spec_drain(Some(t), Some(top), rest));
        // Every other record is strictly newer than the delivered one:
        // it qualifies, so it does not precede the minimum, and creation
        // times are distinct.
        assert forall|k: int| 0 <= k < rest.len() implies qualifies(
            #[trigger] rest[k],
            spec_eff_cursor(Some(t)),
        ) by {
            let orig: int = if k < i {
                k
            } else {
                k + 1
            };
            assert(rest[k] == s[orig]);
            assert(!entry_before(s[orig], s[i]));
            assert(s[orig].created != t);
        }
        assert forall|k: int, l: int|
            0 <= k < rest.len() && 0 <= l < rest.len() && k != l implies (
        #[trigger] rest[k]).created != (#[trigger] rest[l]).created by {
            let ok: int = if k < i {
                k
            } else {
                k + 1
            };
            let ol: int = if l < i {
                l
            } else {
                l + 1
            };
            assert(rest[k] == s[ok] && rest[l] == s[ol]);
        }
        assert(forall|k: int| 0 <= k < rest.len() ==> (#[trigger] rest[k]).created <= top);
        lemma_sequential_delivery(Some(t), top, rest);
        let rr = spec_drain(Some(t), Some(top), rest);
        assert(r.len() == s.len());
        assert(r[0] == t);
        assert(forall|a: int| 0 <= a < rr.len() ==> r[a + 1] == rr[a]);
        assert forall|a: int| 0 <= a < r.len() implies #[trigger] r[a] > spec_eff_cursor(
            local,
        ) by {
            if a > 0 {
                assert(r[a] == rr[a - 1]);
                assert(rr[a - 1] > t);
            }
        }
        assert forall|a: int, b: int| 0 <= a < b < r.len() implies #[trigger] r[a] < #[trigger] r[b] by {
            assert(r[b] == rr[b - 1]);
            assert(rr[b - 1] > t);
            if a > 0 {
                assert(r[a] == rr[a - 1]);
            }
        }
        assert forall|k: int| 0 <= k < s.len() implies r.contains((#[trigger] s[k]).created) by {
            if k == i {
                assert(r[0] == s[i].created);
            } else {
                let k2: int = if k < i {
                    k
                } else {
                    k - 1
                };
                assert(rest[k2] == s[k]);
                assert(rr.contains(rest[k2].created));
                let a = choose|a: int| 0 <= a < rr.len() && rr[a] == rest[k2].created;
                assert(r[a + 1] == rr[a]);
            }
        }
    }
}

/// A freshly attached consumer ignores the on-disk manifest entirely:
/// whatever earlier consumers recorded there, its pull decision is the
/// same — the whole backlog is redelivered.  It comes up empty only when
/// every present record carries the epoch's own zero timestamp.
pub proof fn lemma_backlog_redelivery(d1: Option<u64>, d2: Option<u64>, s: Seq<DataEntry>)
    ensures
        spec_pull(None, d1, s) == spec_pull(None, d2, s),
        spec_pull(None, d1, s) is None ==> forall|k: int|
            0 <= k < s.len() ==> (#[trigger] s[k]).created == 0,
{
    lemma_select_properties(s, 0);
}

} // verus!
