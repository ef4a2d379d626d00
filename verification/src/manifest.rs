//! The manifest: the single persisted cursor value of a pipe directory.
//!
//! On disk the manifest is the JSON object `{"latest":null}` or
//! `{"latest":<nanoseconds>}`.  The codec here is total and exact: parsing
//! accepts precisely the byte strings that encoding produces, and anything
//! else is treated as corruption, which the loader heals by resetting to
//! the empty manifest.

use vstd::prelude::*;

verus! {

/// The persisted cursor of one pipe directory: the creation timestamp
/// (nanoseconds since the Unix epoch) of the most recently delivered data
/// record, or `None` if nothing was ever delivered.
#[verifier::ext_equal]
#[derive(Clone, Copy)]
pub struct Manifest {
    pub latest: Option<u64>,
}

/// Decimal digits of `n` in ASCII, most significant first, no leading
/// zeros (the single digit `0` for zero).
pub open spec fn dec_digits(n: u64) -> Seq<u8>
    decreases n,
{
    if n < 10 {
        seq![(48 + n) as u8]
    } else {
        dec_digits((n / 10) as u64).push((48 + n % 10) as u8)
    }
}

/// The numeric value of a sequence of ASCII decimal digits.
pub open spec fn dec_value(s: Seq<u8>) -> nat
    decreases s.len(),
{
    if s.len() == 0 {
        0
    } else {
        dec_value(s.drop_last()) * 10 + (s.last() - 48) as nat
    }
}

pub open spec fn is_dec_digit(b: u8) -> bool {
    48 <= b <= 57
}

/// The bytes of `{"latest":`.
pub open spec fn manifest_prefix() -> Seq<u8> {
    seq![123u8, 34u8, 108u8, 97u8, 116u8, 101u8, 115u8, 116u8, 34u8, 58u8]
}

/// The bytes of `null}`.
pub open spec fn null_close() -> Seq<u8> {
    seq![110u8, 117u8, 108u8, 108u8, 125u8]
}

/// The on-disk form of a manifest.
pub open spec fn spec_encode(m: Manifest) -> Seq<u8> {
    match m.latest {
        None => manifest_prefix() + null_close(),
        Some(n) => manifest_prefix() + dec_digits(n) + seq![125u8],
    }
}

/// Every byte of `dec_digits(n)` is an ASCII decimal digit, the sequence
/// is nonempty, and it starts with `0` only for the value zero.
pub proof fn lemma_dec_digits_form(n: u64)
    ensures
        dec_digits(n).len() >= 1,
        forall|i: int| 0 <= i < dec_digits(n).len() ==> is_dec_digit(#[trigger] dec_digits(n)[i]),
        dec_digits(n)[0] == 48 ==> n == 0,
        n == 0 ==> dec_digits(n) =~= seq![48u8],
    decreases n,
{
    if n >= 10 {
        lemma_dec_digits_form((n / 10) as u64);
        assert(dec_digits(n) == dec_digits((n / 10) as u64).push((48 + n % 10) as u8));
        assert(dec_digits(n)[0] == dec_digits((n / 10) as u64)[0]);
    }
}

/// Reading the digits of `n` back yields `n`.
pub proof fn lemma_dec_digits_value(n: u64)
    ensures
        dec_value(dec_digits(n)) == n,
    decreases n,
{
    if n < 10 {
        let s = dec_digits(n);
        assert(s =~= seq![(48 + n) as u8]);
        assert(s.drop_last() =~= Seq::<u8>::empty());
        assert(dec_value(s.drop_last()) == 0);
        assert(s.last() == (48 + n) as u8);
        assert(dec_value(s) == dec_value(s.drop_last()) * 10 + (s.last() - 48) as nat);
    } else {
        lemma_dec_digits_value((n / 10) as u64);
        let d = dec_digits((n / 10) as u64).push((48 + n % 10) as u8);
        assert(d.drop_last() =~= dec_digits((n / 10) as u64));
        assert(dec_value(d) == dec_value(dec_digits((n / 10) as u64)) * 10 + n % 10);
        assert((n / 10) * 10 + n % 10 == n) by (nonlinear_arith);
    }
}

/// Decimal digits of `n` in ASCII, most significant first.
fn dec_of(n: u64) -> (r: Vec<u8>)
    ensures
        r@ == dec_digits(n),
    decreases n,
{
    if n < 10 {
        let mut v: Vec<u8> = Vec::new();
        v.push((48 + n) as u8);
        proof {
            assert(v@ =~= dec_digits(n));
        }
        v
    } else {
        let mut v = dec_of(n / 10);
        v.push((48 + n % 10) as u8);
        proof {
            assert(v@ =~= dec_digits(n));
        }
        v
    }
}

/// A digit sequence with no superfluous leading zero denotes a value
/// of at least one when it does not start with `0`.
proof fn lemma_dec_value_pos(s: Seq<u8>)
    requires
        s.len() >= 1,
        forall|i: int| 0 <= i < s.len() ==> is_dec_digit(#[trigger] s[i]),
        s[0] != 48,
    ensures
        dec_value(s) >= 1,
    decreases s.len(),
{
    if s.len() == 1 {
        assert(s.last() == s[0]);
    } else {
        lemma_dec_value_pos(s.drop_last());
    }
}

/// The value of a prefix of a digit sequence never exceeds the value of
/// the whole sequence.
proof fn lemma_dec_value_prefix(s: Seq<u8>, j: int)
    requires
        0 <= j <= s.len(),
    ensures
        dec_value(s.take(j)) <= dec_value(s),
    decreases s.len(),
{
    if j == s.len() {
        assert(s.take(j) =~= s);
    } else {
        lemma_dec_value_prefix(s.drop_last(), j);
        assert(s.drop_last().take(j) =~= s.take(j));
    }
}

/// A nonempty digit sequence with no superfluous leading zero is the
/// canonical digit string of its own value.
proof fn lemma_dec_canonical(s: Seq<u8>)
    requires
        s.len() >= 1,
        forall|i: int| 0 <= i < s.len() ==> is_dec_digit(#[trigger] s[i]),
        s[0] != 48 || s.len() == 1,
        dec_value(s) <= u64::MAX,
    ensures
        dec_digits(dec_value(s) as u64) =~= s,
    decreases s.len(),
{
    if s.len() == 1 {
        assert(s.drop_last() =~= Seq::<u8>::empty());
        assert(dec_value(s.drop_last()) == 0);
        assert(s.last() == s[0]);
        assert(dec_value(s) == dec_value(s.drop_last()) * 10 + (s.last() - 48) as nat);
        assert(dec_value(s) == (s[0] - 48) as nat);
        assert(dec_digits(dec_value(s) as u64) =~= seq![s[0]]);
        assert(seq![s[0]] =~= s);
    } else {
        let t = s.drop_last();
        let d = (s.last() - 48) as nat;
        let v = dec_value(s);
        assert(v == dec_value(t) * 10 + d);
        assert(dec_value(t) <= v);
        lemma_dec_value_pos(t);
        lemma_dec_canonical(t);
        let v64 = v as u64;
        assert(v64 == dec_value(t) * 10 + d);
        assert(v64 / 10 == dec_value(t) && v64 % 10 == d) by (nonlinear_arith)
            requires
                d < 10,
                v64 == dec_value(t) * 10 + d,
        ;
        assert(v64 >= 10);
        assert(dec_digits(v64) == dec_digits((v64 / 10) as u64).push((48 + v64 % 10) as u8));
        assert((48 + v64 % 10) as u8 == s.last());
        assert(dec_digits((v64 / 10) as u64) =~= t);
        assert(dec_digits(v64) =~= t.push(s.last()));
        assert(t.push(s.last()) =~= s);
    }
}

/// Structure of an encoded manifest: the fixed prefix, then either the
/// bytes of `null}` or the digits of the cursor followed by `}`.
pub proof fn lemma_encode_shape(m: Manifest)
    ensures
        spec_encode(m).len() >= 12,
        spec_encode(m).subrange(0, 10) =~= manifest_prefix(),
        spec_encode(m).last() == 125,
        m.latest is None ==> spec_encode(m).len() == 15 && spec_encode(m)[10] == 110
            && spec_encode(m)[11] == 117 && spec_encode(m)[12] == 108
            && spec_encode(m)[13] == 108 && spec_encode(m)[14] == 125,
        m.latest matches Some(v) ==> spec_encode(m).len() == 11 + dec_digits(v).len()
            && spec_encode(m).subrange(10, spec_encode(m).len() - 1) =~= dec_digits(v)
            && spec_encode(m)[10] == dec_digits(v)[0] && is_dec_digit(dec_digits(v)[0]),
{
    match m.latest {
        None => {
            assert(spec_encode(m) =~= manifest_prefix() + null_close());
            assert(spec_encode(m).subrange(0, 10) =~= manifest_prefix());
        },
        Some(v) => {
            lemma_dec_digits_form(v);
            let e = manifest_prefix() + dec_digits(v) + seq![125u8];
            assert(spec_encode(m) == e);
            assert(e.subrange(0, 10) =~= manifest_prefix());
            assert(e.subrange(10, e.len() - 1) =~= dec_digits(v));
            assert(e[10] == dec_digits(v)[0]);
        },
    }
}

/// Two manifests with the same on-disk form hold the same cursor: the
/// encoding is injective, so the persisted bytes determine the cursor
/// that a re-load recovers.
pub proof fn lemma_encode_injective(m1: Manifest, m2: Manifest)
    requires
        spec_encode(m1) == spec_encode(m2),
    ensures
        m1.latest == m2.latest,
{
    lemma_encode_shape(m1);
    lemma_encode_shape(m2);
    match (m1.latest, m2.latest) {
        (None, None) => {},
        (None, Some(v)) => {
            assert(spec_encode(m1)[10] == 110);
            assert(!is_dec_digit(110));
        },
        (Some(v), None) => {
            assert(spec_encode(m2)[10] == 110);
            assert(!is_dec_digit(110));
        },
        (Some(v1), Some(v2)) => {
            let e = spec_encode(m1);
            assert(dec_digits(v1) =~= e.subrange(10, e.len() - 1));
            assert(dec_digits(v2) =~= e.subrange(10, e.len() - 1));
            lemma_dec_digits_value(v1);
            lemma_dec_digits_value(v2);
            assert(v1 == dec_value(dec_digits(v1)));
        },
    }
}

/// Serialize a manifest into its on-disk form.
pub fn encode_manifest(m: &Manifest) -> (r: Vec<u8>)
    ensures
        r@ == spec_encode(*m),
{
    let mut r: Vec<u8> = Vec::new();
    r.push(123);
    r.push(34);
    r.push(108);
    r.push(97);
    r.push(116);
    r.push(101);
    r.push(115);
    r.push(116);
    r.push(34);
    r.push(58);
    proof {
        assert(r@ =~= manifest_prefix());
    }
    match m.latest {
        None => {
            r.push(110);
            r.push(117);
            r.push(108);
            r.push(108);
            r.push(125);
            proof {
                assert(r@ =~= manifest_prefix() + null_close());
            }
        },
        Some(n) => {
            let mut d = dec_of(n);
            r.append(&mut d);
            r.push(125);
            proof {
                assert(r@ =~= manifest_prefix() + dec_digits(n) + seq![125u8]);
            }
        },
    }
    r
}

/// The byte that `{"latest":` holds at position `k`.
fn prefix_byte(k: usize) -> (r: u8)
    requires
        k < 10,
    ensures
        r == manifest_prefix()[k as int],
{
    let r: u8 = if k == 0 {
        123
    } else if k == 1 {
        34
    } else if k == 2 {
        108
    } else if k == 3 {
        97
    } else if k == 4 {
        116
    } else if k == 5 {
        101
    } else if k == 6 {
        115
    } else if k == 7 {
        116
    } else if k == 8 {
        34
    } else {
        58
    };
    r
}

/// Whether the bytes start with `{"latest":`.
fn check_prefix(bytes: &Vec<u8>) -> (r: bool)
    requires
        bytes@.len() >= 10,
    ensures
        r <==> bytes@.subrange(0, 10) == manifest_prefix(),
{
    let mut k: usize = 0;
    while k < 10
        invariant
            0 <= k <= 10,
            bytes@.len() >= 10,
            forall|j: int| 0 <= j < k ==> bytes@[j] == manifest_prefix()[j],
        decreases 10 - k,
    {
        let expect = prefix_byte(k);
        if bytes[k] != expect {
            proof {
                assert(bytes@.subrange(0, 10)[k as int] == bytes@[k as int]);
            }
            return false;
        }
        k += 1;
    }
    proof {
        assert(bytes@.subrange(0, 10) =~= manifest_prefix());
    }
    true
}

/// Parse the on-disk form of a manifest.  The codec is exact: the result
/// is `Some(m)` precisely when the bytes are `spec_encode(m)`, so a
/// manifest written by `update` is always read back unchanged, and any
/// corruption is reported as `None`.
pub fn parse_manifest(bytes: &Vec<u8>) -> (r: Option<Manifest>)
    ensures
        r matches Some(m) ==> bytes@ == spec_encode(m),
        forall|m: Manifest| bytes@ == #[trigger] spec_encode(m) ==> r == Some(m),
{
    let n = bytes.len();
    if n < 12 {
        proof {
            assert forall|m: Manifest| bytes@ != #[trigger] spec_encode(m) by {
                lemma_encode_shape(m);
            }
        }
        return None;
    }
    if !check_prefix(bytes) {
        proof {
            assert forall|m: Manifest| bytes@ != #[trigger] spec_encode(m) by {
                lemma_encode_shape(m);
                if bytes@ == spec_encode(m) {
                    assert(bytes@.subrange(0, 10) =~= spec_encode(m).subrange(0, 10));
                }
            }
        }
        return None;
    }
    if bytes[10] == 110 {
        // Only the empty manifest's form has `n` after the prefix.
        if n == 15 && bytes[11] == 117 && bytes[12] == 108 && bytes[13] == 108 && bytes[14]
            == 125 {
            proof {
                assert(bytes@[0] == bytes@.subrange(0, 10)[0]);
                assert(bytes@[1] == bytes@.subrange(0, 10)[1]);
                assert(bytes@[2] == bytes@.subrange(0, 10)[2]);
                assert(bytes@[3] == bytes@.subrange(0, 10)[3]);
                assert(bytes@[4] == bytes@.subrange(0, 10)[4]);
                assert(bytes@[5] == bytes@.subrange(0, 10)[5]);
                assert(bytes@[6] == bytes@.subrange(0, 10)[6]);
                assert(bytes@[7] == bytes@.subrange(0, 10)[7]);
                assert(bytes@[8] == bytes@.subrange(0, 10)[8]);
                assert(bytes@[9] == bytes@.subrange(0, 10)[9]);
                assert(bytes@ =~= spec_encode((Manifest { latest: None })));
                assert forall|m: Manifest|
                    bytes@ == #[trigger] spec_encode(m) implies m == (Manifest {
                    latest: None,
                }) by {
                    lemma_encode_injective(m, Manifest { latest: None });
                    assert(m =~= (Manifest { latest: None }));
                }
            }
            return Some(Manifest { latest: None });
        } else {
            proof {
                assert forall|m: Manifest| bytes@ != #[trigger] spec_encode(m) by {
                    lemma_encode_shape(m);
                    if bytes@ == spec_encode(m) {
                        match m.latest {
                            None => {},
                            Some(v) => {
                                assert(!is_dec_digit(110));
                            },
                        }
                    }
                }
            }
            return None;
        }
    }
    // From here on, an empty manifest's form is ruled out by `bytes[10]`.
    proof {
        assert forall|m: Manifest|
            bytes@ == #[trigger] spec_encode(m) implies m.latest is Some by {
            lemma_encode_shape(m);
        }
    }
    if bytes[n - 1] != 125 {
        proof {
            assert forall|m: Manifest| bytes@ != #[trigger] spec_encode(m) by {
                lemma_encode_shape(m);
                if bytes@ == spec_encode(m) {
                    assert(bytes@.last() == spec_encode(m).last());
                }
            }
        }
        return None;
    }
    if bytes[10] == 48 && n != 12 {
        // A leading zero never comes out of the encoder.
        proof {
            assert forall|m: Manifest| bytes@ != #[trigger] spec_encode(m) by {
                lemma_encode_shape(m);
                if bytes@ == spec_encode(m) {
                    match m.latest {
                        None => {},
                        Some(v) => {
                            lemma_dec_digits_form(v);
                            assert(dec_digits(v)[0] == spec_encode(m)[10]);
                            assert(v == 0);
                            assert(dec_digits(v).len() == 1);
                        },
                    }
                }
            }
        }
        return None;
    }
    let ghost digits = bytes@.subrange(10, n - 1);
    proof {
        assert forall|m: Manifest|
            bytes@ == #[trigger] spec_encode(m) implies (m.latest matches Some(v)
            && digits =~= dec_digits(v)) by {
            lemma_encode_shape(m);
        }
    }
    let mut i: usize = 10;
    let mut acc: u64 = 0;
    while i < n - 1
        invariant
            10 <= i <= n - 1,
            12 <= n == bytes@.len(),
            digits == bytes@.subrange(10, n - 1),
            forall|j: int| 10 <= j < i ==> is_dec_digit(#[trigger] bytes@[j]),
            acc == dec_value(bytes@.subrange(10, i as int)),
            forall|m: Manifest| bytes@ == #[trigger] spec_encode(m) ==> (m.latest matches Some(
                v,
            ) && digits == dec_digits(v)),
        decreases n - 1 - i,
    {
        let b = bytes[i];
        if b < 48 || b > 57 {
            proof {
                assert forall|m: Manifest| bytes@ != #[trigger] spec_encode(m) by {
                    if bytes@ == spec_encode(m) {
                        let v = m.latest->0;
                        lemma_dec_digits_form(v);
                        assert(digits[i - 10] == bytes@[i as int]);
                        assert(is_dec_digit(dec_digits(v)[i - 10]));
                    }
                }
            }
            return None;
        }
        let d = (b - 48) as u64;
        proof {
            assert(bytes@.subrange(10, i + 1).drop_last() =~= bytes@.subrange(10, i as int));
            assert(bytes@.subrange(10, i + 1).last() == b);
        }
        if acc > (u64::MAX - d) / 10 {
            // The digits read so far already denote a value past `u64::MAX`,
            // which the encoder can never have produced.
            proof {
                assert(acc * 10 + d > u64::MAX) by (nonlinear_arith)
                    requires
                        d < 10,
                        acc > (u64::MAX - d) / 10,
                ;
                assert(dec_value(bytes@.subrange(10, i + 1)) == acc * 10 + d);
                assert forall|m: Manifest| bytes@ != #[trigger] spec_encode(m) by {
                    if bytes@ == spec_encode(m) {
                        let v = m.latest->0;
                        lemma_dec_digits_value(v);
                        lemma_dec_value_prefix(digits, i + 1 - 10);
                        assert(digits.take(i + 1 - 10) =~= bytes@.subrange(10, i + 1));
                        assert(dec_value(digits) == v);
                    }
                }
            }
            return None;
        }
        proof {
            assert(acc * 10 + d <= u64::MAX) by (nonlinear_arith)
                requires
                    d < 10,
                    acc <= (u64::MAX - d) / 10,
            ;
        }
        acc = acc * 10 + d;
        i += 1;
    }
    proof {
        assert(digits =~= bytes@.subrange(10, i as int));
        assert(forall|j: int| 0 <= j < digits.len() ==> is_dec_digit(#[trigger] digits[j]));
        assert(digits[0] == bytes@[10]);
        assert(digits[0] != 48 || digits.len() == 1);
        lemma_dec_canonical(digits);
        assert(dec_digits(acc) =~= digits);
        assert(bytes@ =~= manifest_prefix() + digits + seq![125u8]);
        assert(bytes@ =~= spec_encode((Manifest { latest: Some(acc) })));
        assert forall|m: Manifest|
            bytes@ == #[trigger] spec_encode(m) implies m == (Manifest {
            latest: Some(acc),
        }) by {
            lemma_encode_injective(m, Manifest { latest: Some(acc) });
            assert(m =~= (Manifest { latest: Some(acc) }));
        }
    }
    Some(Manifest { latest: Some(acc) })
}

impl Manifest {
    /// Interpret the bytes read back from the manifest file.  Corruption
    /// — any content the encoder cannot have produced, including an empty
    /// or missing file — is healed locally: the result is then the empty
    /// manifest, paired with `true` to tell the caller to write the fresh
    /// form back.  The caller never sees a failure.
    pub fn load(bytes: &Vec<u8>) -> (r: (Manifest, bool))
        ensures
            forall|m: Manifest| bytes@ == #[trigger] spec_encode(m) ==> r.0 == m && !r.1,
            r.1 <==> !(exists|m: Manifest| bytes@ == #[trigger] spec_encode(m)),
            r.1 ==> r.0.latest is None,
    {
        match parse_manifest(bytes) {
            Some(m) => {
                proof {
                    assert(bytes@ == spec_encode(m));
                }
                (m, false)
            },
            None => (Manifest { latest: None }, true),
        }
    }

    /// Move the cursor to a newly written record's timestamp and produce
    /// the bytes whose atomic rename onto the manifest path publishes it.
    pub fn update(&mut self, new_latest: u64) -> (r: Vec<u8>)
        ensures
            final(self).latest == Some(new_latest),
            r@ == spec_encode(*final(self)),
    {
        self.latest = Some(new_latest);
        let m = *self;
        encode_manifest(&m)
    }
}

/// The bytes of `manifest`, the one file name of a pipe directory that is
/// never a data record.
pub open spec fn manifest_name() -> Seq<u8> {
    seq![109u8, 97u8, 110u8, 105u8, 102u8, 101u8, 115u8, 116u8]
}

/// The bytes of `/manifest`.
pub open spec fn manifest_file_suffix() -> Seq<u8> {
    seq![47u8] + manifest_name()
}

/// The path of the manifest file inside the pipe directory at `root`.
pub fn manifest_path(root: &Vec<u8>) -> (r: Vec<u8>)
    ensures
        r@ == root@ + manifest_file_suffix(),
{
    let mut r: Vec<u8> = Vec::new();
    let mut k: usize = 0;
    while k < root.len()
        invariant
            k <= root@.len(),
            r@ == root@.take(k as int),
        decreases root@.len() - k,
    {
        r.push(root[k]);
        proof {
            assert(r@ =~= root@.take(k as int + 1));
        }
        k += 1;
    }
    proof {
        assert(r@ =~= root@);
    }
    r.push(47);
    r.push(109);
    r.push(97);
    r.push(110);
    r.push(105);
    r.push(102);
    r.push(101);
    r.push(115);
    r.push(116);
    proof {
        assert(r@ =~= root@ + manifest_file_suffix());
    }
    r
}

} // verus!
