use vstd::prelude::*;
use vstd::seq_lib::{to_multiset_insert, to_multiset_remove};

verus! {

broadcast use vstd::multiset::group_multiset_axioms, vstd::seq_lib::group_to_multiset_ensures;

/// Whether `s` is all ASCII decimal digits.
pub open spec fn all_digits(s: Seq<u8>) -> bool {
    forall|i: int| 0 <= i < s.len() ==> 48 <= #[trigger] s[i] <= 57
}

/// The number that the decimal digits `s` spell.
pub open spec fn digits_value(s: Seq<u8>) -> nat
    decreases s.len(),
{
    if s.len() == 0 {
        0
    } else {
        digits_value(s.drop_last()) * 10 + (s.last() - 48) as nat
    }
}

/// Decimal parsing of an unsigned 64-bit number, as `str::parse::<u64>`
/// does it: an optional `+`, then one or more digits whose value fits.
pub open spec fn spec_parse_u64(s: Seq<u8>) -> Option<u64> {
    let d = if s.len() > 0 && s[0] == 43 {
        s.drop_first()
    } else {
        s
    };
    if d.len() > 0 && all_digits(d) && digits_value(d) <= u64::MAX {
        Some(digits_value(d) as u64)
    } else {
        None
    }
}

proof fn lemma_digits_value_prefix(s: Seq<u8>, i: int)
    requires
        all_digits(s),
        0 <= i <= s.len(),
    ensures
        digits_value(s.take(i)) <= digits_value(s),
    decreases s.len(),
{
    if i < s.len() {
        assert(all_digits(s.drop_last())) by {
            assert forall|j: int| 0 <= j < s.drop_last().len() implies 48 <= #[trigger] s.drop_last()[j]
                <= 57 by {
                assert(s.drop_last()[j] == s[j]);
            }
        }
        lemma_digits_value_prefix(s.drop_last(), i);
        assert(s.drop_last().take(i) =~= s.take(i));
    } else {
        assert(s.take(i) =~= s);
    }
}

/// Parses a decimal sequence number.
pub fn parse_u64(s: &[u8]) -> (r: Option<u64>)
    ensures
        r == spec_parse_u64(s@),
{
    let start: usize = if s.len() > 0 && s[0] == 43u8 { 1 } else { 0 };
    let ghost d = if s@.len() > 0 && s@[0] == 43 { s@.drop_first() } else { s@ };
    proof {
        assert(d =~= s@.subrange(start as int, s@.len() as int));
    }
    if start == s.len() {
        return None;
    }
    let mut value: u64 = 0;
    let mut i: usize = start;
    while i < s.len()
        invariant
            start <= i <= s@.len(),
            d == s@.subrange(start as int, s@.len() as int),
            d == (if s@.len() > 0 && s@[0] == 43 { s@.drop_first() } else { s@ }),
            all_digits(d.take(i - start)),
            value == digits_value(d.take(i - start)),
        decreases s@.len() - i,
    {
        let c = s[i];
        if c < 48u8 || c > 57u8 {
            proof {
                assert(d[i - start] == c);
            }
            return None;
        }
        let digit = (c - 48u8) as u64;
        proof {
            assert(d.take(i - start + 1).drop_last() =~= d.take(i - start));
            assert(d.take(i - start + 1).last() == c);
            assert(all_digits(d.take(i - start + 1))) by {
                assert forall|j: int| 0 <= j < d.take(i - start + 1).len() implies 48
                    <= #[trigger] d.take(i - start + 1)[j] <= 57 by {
                    if j < i - start {
                        assert(d.take(i - start + 1)[j] == d.take(i - start)[j]);
                    }
                }
            }
        }
        match value.checked_mul(10) {
            None => {
                proof {
                    if all_digits(d) {
                        lemma_digits_value_prefix(d, i - start + 1);
                    }
                }
                return None;
            },
            Some(v10) => match v10.checked_add(digit) {
                None => {
                    proof {
                        if all_digits(d) {
                            lemma_digits_value_prefix(d, i - start + 1);
                        }
                    }
                    return None;
                },
                Some(v) => {
                    value = v;
                },
            },
        }
        i = i + 1;
    }
    proof {
        assert(d.take(i - start) =~= d);
    }
    Some(value)
}

/// Whether `s` ends with `suffix`.
pub open spec fn ends_with(s: Seq<u8>, suffix: Seq<u8>) -> bool {
    s.len() >= suffix.len() && s.subrange(s.len() - suffix.len(), s.len() as int) == suffix
}

/// Whether `s` starts with `prefix`.
pub open spec fn starts_with(s: Seq<u8>, prefix: Seq<u8>) -> bool {
    s.len() >= prefix.len() && s.subrange(0, prefix.len() as int) == prefix
}

fn has_suffix(s: &[u8], suffix: &[u8]) -> (r: bool)
    ensures
        r == ends_with(s@, suffix@),
{
    if s.len() < suffix.len() {
        return false;
    }
    let off = s.len() - suffix.len();
    let mut i: usize = 0;
    while i < suffix.len()
        invariant
            off == s@.len() - suffix@.len(),
            suffix@.len() <= s@.len(),
            i <= suffix@.len(),
            forall|j: int| 0 <= j < i ==> s@[off + j] == suffix@[j],
        decreases suffix@.len() - i,
    {
        assert(off + i < s.len());
        if s[off + i] != suffix[i] {
            proof {
                assert(s@.subrange(off as int, s@.len() as int)[i as int] != suffix@[i as int]);
            }
            return false;
        }
        i = i + 1;
    }
    proof {
        assert(s@.subrange(off as int, s@.len() as int) =~= suffix@);
    }
    true
}

fn has_prefix(s: &[u8], prefix: &[u8]) -> (r: bool)
    ensures
        r == starts_with(s@, prefix@),
{
    if s.len() < prefix.len() {
        return false;
    }
    let mut i: usize = 0;
    while i < prefix.len()
        invariant
            prefix@.len() <= s@.len(),
            i <= prefix@.len(),
            forall|j: int| 0 <= j < i ==> s@[j] == prefix@[j],
        decreases prefix@.len() - i,
    {
        if s[i] != prefix[i] {
            proof {
                assert(s@.subrange(0, prefix@.len() as int)[i as int] != prefix@[i as int]);
            }
            return false;
        }
        i = i + 1;
    }
    proof {
        assert(s@.subrange(0, prefix@.len() as int) =~= prefix@);
    }
    true
}

/// `.sst`
pub open spec fn sst_suffix() -> Seq<u8> {
    seq![46u8, 115u8, 115u8, 116u8]
}

/// `.sst.tmp`
pub open spec fn tmp_suffix() -> Seq<u8> {
    seq![46u8, 115u8, 115u8, 116u8, 46u8, 116u8, 109u8, 112u8]
}

/// `wal.`
pub open spec fn wal_prefix() -> Seq<u8> {
    seq![119u8, 97u8, 108u8, 46u8]
}

/// `.log`
pub open spec fn log_suffix() -> Seq<u8> {
    seq![46u8, 108u8, 111u8, 103u8]
}

/// The sequence number of an SSTable file name `NNNNNNNN.sst`.
pub open spec fn spec_sstable_seq(name: Seq<u8>) -> Option<u64> {
    if ends_with(name, sst_suffix()) {
        spec_parse_u64(name.subrange(0, name.len() - 4))
    } else {
        None
    }
}

/// The generation of a write-ahead-log file name `wal.NNNNNNNN.log`.
pub open spec fn spec_wal_seq(name: Seq<u8>) -> Option<u64> {
    if starts_with(name, wal_prefix()) && ends_with(name.subrange(4, name.len() as int), log_suffix()) {
        spec_parse_u64(name.subrange(4, name.len() - 4))
    } else {
        None
    }
}

/// The decimal digits of `n`, most significant first, without leading zeros.
pub open spec fn decimal(n: nat) -> Seq<u8>
    decreases n,
{
    if n < 10 {
        seq![(48 + n) as u8]
    } else {
        decimal(n / 10).push((48 + n % 10) as u8)
    }
}

/// `z` zero digits.
pub open spec fn zeros(z: nat) -> Seq<u8> {
    Seq::new(z, |i: int| 48u8)
}

proof fn lemma_decimal(n: nat)
    ensures
        decimal(n).len() > 0,
        all_digits(decimal(n)),
        digits_value(decimal(n)) == n,
    decreases n,
{
    let d = decimal(n);
    if n < 10 {
        assert(d.drop_last() =~= Seq::<u8>::empty());
        assert(digits_value(Seq::<u8>::empty()) == 0);
    } else {
        lemma_decimal(n / 10);
        let p = decimal(n / 10);
        assert(d.drop_last() =~= p);
        assert(d.last() == (48 + n % 10) as u8);
        assert forall|i: int| 0 <= i < d.len() implies 48 <= #[trigger] d[i] <= 57 by {
            if i < p.len() {
                assert(d[i] == p[i]);
            }
        }
        assert(n == (n / 10) * 10 + n % 10);
    }
}

proof fn lemma_zeros_value(z: nat, s: Seq<u8>)
    requires
        all_digits(s),
    ensures
        all_digits(zeros(z) + s),
        digits_value(zeros(z) + s) == digits_value(s),
    decreases z + s.len(),
{
    let t = zeros(z) + s;
    assert forall|i: int| 0 <= i < t.len() implies 48 <= #[trigger] t[i] <= 57 by {
        if i >= z {
            assert(t[i] == s[i - z]);
        }
    }
    if s.len() > 0 {
        assert(all_digits(s.drop_last())) by {
            assert forall|j: int| 0 <= j < s.drop_last().len() implies 48 <= #[trigger] s.drop_last()[j]
                <= 57 by {
                assert(s.drop_last()[j] == s[j]);
            }
        }
        lemma_zeros_value(z, s.drop_last());
        assert(t.drop_last() =~= zeros(z) + s.drop_last());
        assert(t.last() == s.last());
    } else if z > 0 {
        assert(all_digits(Seq::<u8>::empty()));
        lemma_zeros_value((z - 1) as nat, s);
        assert(t.drop_last() =~= zeros((z - 1) as nat) + s);
        assert(t.last() == 48u8);
    } else {
        assert(t =~= s);
    }
}

/// A number written in decimal, with any number of leading zeros, parses
/// back to itself.
pub proof fn law_parse_decimal(z: nat, n: u64)
    ensures
        spec_parse_u64(zeros(z) + decimal(n as nat)) == Some(n),
{
    lemma_decimal(n as nat);
    lemma_zeros_value(z, decimal(n as nat));
    let t = zeros(z) + decimal(n as nat);
    assert(t.len() > 0 && 48 <= t[0] <= 57);
}

proof fn lemma_all_digits_drop_last(s: Seq<u8>)
    requires
        all_digits(s),
        s.len() > 0,
    ensures
        all_digits(s.drop_last()),
{
    assert forall|j: int| 0 <= j < s.drop_last().len() implies 48 <= #[trigger] s.drop_last()[j] <= 57 by {
        assert(s.drop_last()[j] == s[j]);
    }
}

/// Digits that do not start with a zero are the decimal form of their value.
proof fn lemma_leading_nonzero(s: Seq<u8>)
    requires
        all_digits(s),
        s.len() > 0,
        s[0] != 48,
    ensures
        digits_value(s) >= 1,
        s == decimal(digits_value(s)),
    decreases s.len(),
{
    let v = digits_value(s);
    let d = (s.last() - 48) as nat;
    assert(48 <= s.last() <= 57);
    if s.len() == 1 {
        assert(s.drop_last() =~= Seq::<u8>::empty());
        assert(digits_value(Seq::<u8>::empty()) == 0);
        assert(v == d);
        assert(s =~= seq![(48 + v) as u8]);
    } else {
        let p = s.drop_last();
        lemma_all_digits_drop_last(s);
        assert(p[0] == s[0]);
        lemma_leading_nonzero(p);
        let pv = digits_value(p);
        assert(v == pv * 10 + d);
        assert(v / 10 == pv && v % 10 == d) by (nonlinear_arith)
            requires
                v == pv * 10 + d,
                d < 10,
        ;
        assert(s =~= p.push(s.last()));
    }
}

/// Any digits are some zeros followed by the decimal form of their value.
proof fn lemma_canonical_digits(s: Seq<u8>)
    requires
        all_digits(s),
        s.len() > 0,
    ensures
        exists|z: nat| s == zeros(z) + decimal(digits_value(s)),
    decreases s.len(),
{
    if s[0] != 48 {
        lemma_leading_nonzero(s);
        assert(s =~= zeros(0) + decimal(digits_value(s)));
    } else if s.len() == 1 {
        assert(s.drop_last() =~= Seq::<u8>::empty());
        assert(digits_value(Seq::<u8>::empty()) == 0);
        assert(digits_value(s) == 0);
        assert(s =~= zeros(0) + decimal(0));
    } else {
        let t = s.drop_first();
        assert(all_digits(t)) by {
            assert forall|j: int| 0 <= j < t.len() implies 48 <= #[trigger] t[j] <= 57 by {
                assert(t[j] == s[j + 1]);
            }
        }
        lemma_canonical_digits(t);
        let z = choose|z: nat| t == zeros(z) + decimal(digits_value(t));
        lemma_zeros_value(1, t);
        assert(s =~= zeros(1) + t);
        assert(s =~= zeros(z + 1) + decimal(digits_value(t)));
    }
}

/// What parses is exactly a number's decimal form, after an optional `+`
/// and any number of leading zeros.
pub proof fn law_parse_u64_exact(s: Seq<u8>, v: u64)
    ensures
        spec_parse_u64(s) == Some(v) <==> exists|p: Seq<u8>, z: nat|
            (p == Seq::<u8>::empty() || p == seq![43u8]) && s == p + zeros(z) + decimal(v as nat),
{
    if spec_parse_u64(s) == Some(v) {
        let d = if s.len() > 0 && s[0] == 43 { s.drop_first() } else { s };
        lemma_canonical_digits(d);
        let z = choose|z: nat| d == zeros(z) + decimal(digits_value(d));
        let p = if s.len() > 0 && s[0] == 43 { seq![43u8] } else { Seq::<u8>::empty() };
        assert(digits_value(d) == v as nat);
        assert(s =~= p + d);
        assert(s =~= p + zeros(z) + decimal(v as nat));
    }
    if exists|p: Seq<u8>, z: nat|
        (p == Seq::<u8>::empty() || p == seq![43u8]) && s == p + zeros(z) + decimal(v as nat) {
        let (p, z) = choose|p: Seq<u8>, z: nat|
            (p == Seq::<u8>::empty() || p == seq![43u8]) && s == p + zeros(z) + decimal(v as nat);
        law_parse_decimal(z, v);
        lemma_decimal(v as nat);
        let d = zeros(z) + decimal(v as nat);
        assert(d.len() > 0);
        if p == seq![43u8] {
            assert(s.drop_first() =~= d);
            assert(s[0] == 43u8);
        } else {
            assert(s =~= d);
            if z > 0 {
                assert(s[0] == 48u8);
            } else {
                assert(d[0] == decimal(v as nat)[0]);
            }
        }
    }
}

/// The name of the SSTable numbered `n`, zero-padded or not, gives back `n`.
pub proof fn law_sstable_name_round_trip(z: nat, n: u64)
    ensures
        spec_sstable_seq(zeros(z) + decimal(n as nat) + sst_suffix()) == Some(n),
{
    law_parse_decimal(z, n);
    let d = zeros(z) + decimal(n as nat);
    let name = d + sst_suffix();
    assert(name.subrange(name.len() - 4, name.len() as int) =~= sst_suffix());
    assert(name.subrange(0, name.len() - 4) =~= d);
}

/// The name of the write-ahead log of generation `n`, zero-padded or not,
/// gives back `n`.
pub proof fn law_wal_name_round_trip(z: nat, n: u64)
    ensures
        spec_wal_seq(wal_prefix() + zeros(z) + decimal(n as nat) + log_suffix()) == Some(n),
{
    law_parse_decimal(z, n);
    let d = zeros(z) + decimal(n as nat);
    let name = wal_prefix() + d + log_suffix();
    assert(wal_prefix() + zeros(z) + decimal(n as nat) + log_suffix() =~= name);
    assert(name.subrange(0, 4) =~= wal_prefix());
    let rest = name.subrange(4, name.len() as int);
    assert(rest.subrange(rest.len() - 4, rest.len() as int) =~= log_suffix());
    assert(name.subrange(4, name.len() - 4) =~= d);
}

/// The temporary name of an SSTable being written (its name with `.tmp`
/// after it) is taken for an orphan, and a name taken for an orphan is never
/// taken for an SSTable.
pub proof fn law_tmp_names(name: Seq<u8>)
    ensures
        ends_with(name, tmp_suffix()) ==> spec_sstable_seq(name) is None,
        spec_sstable_seq(name) is Some ==> ends_with(
            name + seq![46u8, 116u8, 109u8, 112u8],
            tmp_suffix(),
        ),
{
    let n = name.len() as int;
    if ends_with(name, tmp_suffix()) {
        assert(name[n - 3] == tmp_suffix()[5]);
        assert(name.subrange(n - 4, n)[1] == name[n - 3]);
        assert(sst_suffix()[1] == 115u8);
    }
    if spec_sstable_seq(name) is Some {
        let t = name + seq![46u8, 116u8, 109u8, 112u8];
        assert(t.subrange(t.len() - 8, t.len() as int) =~= tmp_suffix()) by {
            assert forall|j: int| 0 <= j < 4 implies #[trigger] name[n - 4 + j] == sst_suffix()[j] by {
                assert(name.subrange(n - 4, n)[j] == name[n - 4 + j]);
            }
        }
    }
}

/// The sequence number of an SSTable file name, if the name is one.
pub fn sstable_seq_from_name(name: &[u8]) -> (r: Option<u64>)
    ensures
        r == spec_sstable_seq(name@),
{
    let sst: [u8; 4] = [46u8, 115u8, 115u8, 116u8];
    proof {
        assert(sst@ =~= sst_suffix());
    }
    if !has_suffix(name, sst.as_slice()) {
        return None;
    }
    parse_u64(&name[0..name.len() - 4])
}

/// The generation of a write-ahead-log file name, if the name is one.
pub fn wal_seq_from_name(name: &[u8]) -> (r: Option<u64>)
    ensures
        r == spec_wal_seq(name@),
{
    let wal: [u8; 4] = [119u8, 97u8, 108u8, 46u8];
    let log: [u8; 4] = [46u8, 108u8, 111u8, 103u8];
    proof {
        assert(wal@ =~= wal_prefix());
        assert(log@ =~= log_suffix());
    }
    if !has_prefix(name, wal.as_slice()) {
        return None;
    }
    let rest = &name[4..name.len()];
    if !has_suffix(rest, log.as_slice()) {
        return None;
    }
    proof {
        assert(rest@ == name@.subrange(4, name@.len() as int));
    }
    parse_u64(&name[4..name.len() - 4])
}

/// Whether a file name is that of an SSTable left half-written: `*.sst.tmp`.
pub fn is_orphan_tmp_name(name: &[u8]) -> (r: bool)
    ensures
        r == ends_with(name@, tmp_suffix()),
{
    let tmp: [u8; 8] = [46u8, 115u8, 115u8, 116u8, 46u8, 116u8, 109u8, 112u8];
    proof {
        assert(tmp@ =~= tmp_suffix());
    }
    has_suffix(name, tmp.as_slice())
}

/// The largest of `seqs`, if any.
pub open spec fn max_seq(seqs: Seq<u64>) -> Option<u64>
    decreases seqs.len(),
{
    if seqs.len() == 0 {
        None
    } else {
        match max_seq(seqs.drop_last()) {
            None => Some(seqs.last()),
            Some(m) => Some(if m >= seqs.last() { m } else { seqs.last() }),
        }
    }
}

/// `max_seq` is the largest element: one of `seqs`, and no element is
/// above it; there is none exactly when `seqs` is empty.
pub proof fn law_max_seq_is_maximum(seqs: Seq<u64>)
    ensures
        max_seq(seqs) is None <==> seqs.len() == 0,
        max_seq(seqs) matches Some(m) ==> (exists|i: int| 0 <= i < seqs.len() && seqs[i] == m)
            && forall|i: int| 0 <= i < seqs.len() ==> #[trigger] seqs[i] <= m,
    decreases seqs.len(),
{
    if seqs.len() > 0 {
        let init = seqs.drop_last();
        law_max_seq_is_maximum(init);
        let m = max_seq(seqs).unwrap();
        match max_seq(init) {
            None => {
                assert(seqs[seqs.len() - 1] == m);
            },
            Some(m0) => {
                let j = choose|i: int| 0 <= i < init.len() && init[i] == m0;
                assert(seqs[j] == m0);
                assert(seqs[seqs.len() - 1] == seqs.last());
                assert forall|i: int| 0 <= i < seqs.len() implies #[trigger] seqs[i] <= m by {
                    if i < seqs.len() - 1 {
                        assert(seqs[i] == init[i]);
                    }
                }
            },
        }
    }
}

/// The number after the largest of `seqs`, or 1 when there are none: above
/// every number in use, so a new file never reuses one.
pub fn next_seq_after(seqs: &[u64]) -> (r: u64)
    requires
        forall|i: int| 0 <= i < seqs@.len() ==> #[trigger] seqs@[i] < u64::MAX,
    ensures
        r == match max_seq(seqs@) {
            None => 1,
            Some(m) => m + 1,
        },
        forall|i: int| 0 <= i < seqs@.len() ==> #[trigger] seqs@[i] < r,
        seqs@.len() == 0 ==> r == 1,
        seqs@.len() > 0 ==> exists|i: int| 0 <= i < seqs@.len() && r == seqs@[i] + 1,
{
    let mut best: Option<u64> = None;
    let mut i: usize = 0;
    while i < seqs.len()
        invariant
            i <= seqs@.len(),
            best == max_seq(seqs@.take(i as int)),
            best matches Some(m) ==> m < u64::MAX,
            forall|j: int| 0 <= j < seqs@.len() ==> #[trigger] seqs@[j] < u64::MAX,
        decreases seqs@.len() - i,
    {
        proof {
            assert(seqs@.take(i + 1).drop_last() =~= seqs@.take(i as int));
        }
        let s = seqs[i];
        best = match best {
            None => Some(s),
            Some(m) => Some(if m >= s { m } else { s }),
        };
        i = i + 1;
    }
    proof {
        assert(seqs@.take(i as int) =~= seqs@);
        law_max_seq_is_maximum(seqs@);
    }
    match best {
        None => 1,
        Some(m) => m + 1,
    }
}

/// Sorted by sequence number, ascending.
pub open spec fn sorted_by_seq(s: Seq<(u64, Vec<u8>)>) -> bool {
    forall|i: int, j: int| 0 <= i < j < s.len() ==> (#[trigger] s[i]).0 <= (#[trigger] s[j]).0
}

/// The items of `s` whose sequence number is `v`, in their order in `s`.
pub open spec fn with_seq(s: Seq<(u64, Vec<u8>)>, v: u64) -> Seq<(u64, Vec<u8>)> {
    s.filter(|e: (u64, Vec<u8>)| e.0 == v)
}

proof fn lemma_with_seq_none(s: Seq<(u64, Vec<u8>)>, v: u64)
    requires
        forall|j: int| 0 <= j < s.len() ==> (#[trigger] s[j]).0 != v,
    ensures
        with_seq(s, v) == Seq::<(u64, Vec<u8>)>::empty(),
    decreases s.len(),
{
    reveal(Seq::filter);
    if s.len() > 0 {
        lemma_with_seq_none(s.drop_last(), v);
    }
}

proof fn lemma_with_seq_single(x: (u64, Vec<u8>), v: u64)
    ensures
        with_seq(seq![x], v) == (if x.0 == v { seq![x] } else { Seq::<(u64, Vec<u8>)>::empty() }),
{
    reveal(Seq::filter);
    assert(seq![x].drop_last() =~= Seq::<(u64, Vec<u8>)>::empty());
    lemma_with_seq_none(Seq::<(u64, Vec<u8>)>::empty(), v);
    if x.0 == v {
        assert(Seq::<(u64, Vec<u8>)>::empty().push(x) =~= seq![x]);
    }
}

/// Orders named files by sequence number, ascending; files with the same
/// number keep their order.
pub fn sort_by_seq(items: Vec<(u64, Vec<u8>)>) -> (r: Vec<(u64, Vec<u8>)>)
    ensures
        sorted_by_seq(r@),
        r@.to_multiset() == items@.to_multiset(),
        forall|v: u64| #[trigger] with_seq(r@, v) == with_seq(items@, v),
{
    let ghost all = items@;
    let mut rest = items;
    let mut out: Vec<(u64, Vec<u8>)> = Vec::new();
    proof {
        vstd::multiset::lemma_multiset_empty_len(out@.to_multiset());
        assert(out@.to_multiset() =~= vstd::multiset::Multiset::empty());
        assert forall|v: u64| #[trigger] with_seq(out@, v) + with_seq(rest@, v) == with_seq(all, v) by {
            lemma_with_seq_none(out@, v);
            assert(with_seq(out@, v) + with_seq(rest@, v) =~= with_seq(rest@, v));
        }
    }
    while rest.len() > 0
        invariant
            sorted_by_seq(out@),
            out@.to_multiset().add(rest@.to_multiset()) == all.to_multiset(),
            forall|v: u64| #[trigger] with_seq(out@, v) + with_seq(rest@, v) == with_seq(all, v),
        decreases rest@.len(),
    {
        let ghost rest0 = rest@;
        let x = rest.remove(0);
        proof {
            to_multiset_remove(rest0, 0);
        }
        let mut p = out.len();
        while p > 0 && out[p - 1].0 > x.0
            invariant
                p <= out@.len(),
                forall|j: int| p <= j < out@.len() ==> (#[trigger] out@[j]).0 > x.0,
            decreases p,
        {
            p = p - 1;
        }
        let ghost out0 = out@;
        proof {
            to_multiset_insert(out0, p as int, x);
            assert(rest0.to_multiset().contains(x)) by {
                assert(rest0[0] == x);
                vstd::seq_lib::to_multiset_contains(rest0, x);
            }
        }
        out.insert(p, x);
        proof {
            assert forall|i: int, j: int| 0 <= i < j < out@.len() implies (#[trigger] out@[i]).0
                <= (#[trigger] out@[j]).0 by {
                if j < p {
                } else if j == p {
                    if i < p && p > 0 {
                        assert(out0[p - 1].0 <= x.0);
                        assert(out0[i].0 <= out0[p - 1].0 || i == p - 1);
                    }
                } else if i < p {
                    assert(out@[j] == out0[j - 1]);
                } else if i == p {
                    assert(out@[j] == out0[j - 1]);
                } else {
                    assert(out@[i] == out0[i - 1] && out@[j] == out0[j - 1]);
                }
            }
            assert(out@.to_multiset().add(rest@.to_multiset()) =~= all.to_multiset());
            assert forall|v: u64| #[trigger] with_seq(out@, v) + with_seq(rest@, v) == with_seq(
                all,
                v,
            ) by {
                let pre = out0.take(p as int);
                let post = out0.skip(p as int);
                assert(out0 =~= pre + post);
                assert(out@ =~= pre + seq![x] + post);
                assert(rest0 =~= seq![x] + rest@);
                Seq::filter_distributes_over_add(pre, post, |e: (u64, Vec<u8>)| e.0 == v);
                Seq::filter_distributes_over_add(pre, seq![x], |e: (u64, Vec<u8>)| e.0 == v);
                Seq::filter_distributes_over_add(pre + seq![x], post, |e: (u64, Vec<u8>)| e.0 == v);
                Seq::filter_distributes_over_add(seq![x], rest@, |e: (u64, Vec<u8>)| e.0 == v);
                lemma_with_seq_single(x, v);
                if x.0 == v {
                    assert forall|j: int| 0 <= j < post.len() implies (#[trigger] post[j]).0 != v by {
                        assert(post[j] == out0[p + j]);
                    }
                    lemma_with_seq_none(post, v);
                    assert(with_seq(out@, v) =~= with_seq(out0, v) + seq![x]);
                    assert(with_seq(rest0, v) =~= seq![x] + with_seq(rest@, v));
                } else {
                    assert(with_seq(out@, v) =~= with_seq(out0, v));
                    assert(with_seq(rest0, v) =~= with_seq(rest@, v));
                }
                assert(with_seq(out0, v) + with_seq(rest0, v) == with_seq(all, v));
                assert(with_seq(out@, v) + with_seq(rest@, v) =~= with_seq(out0, v) + with_seq(rest0, v));
            }
        }
    }
    proof {
        vstd::multiset::lemma_multiset_empty_len(rest@.to_multiset());
        assert(rest@.to_multiset() =~= vstd::multiset::Multiset::empty());
        assert(out@.to_multiset().add(rest@.to_multiset()) =~= out@.to_multiset());
        assert forall|v: u64| #[trigger] with_seq(out@, v) == with_seq(all, v) by {
            lemma_with_seq_none(rest@, v);
            assert(with_seq(out@, v) + with_seq(rest@, v) == with_seq(all, v));
            assert(with_seq(out@, v) + with_seq(rest@, v) =~= with_seq(out@, v));
        }
    }
    out
}

} // verus!
