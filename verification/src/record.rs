//! Record parser: one raw structured log record in, one validated data
//! point out.
//!
//! Numeric slots of a log record (memory readings, file sizes) arrive as
//! decimal text such as `"1236"` or `"123.5"`.  The parser interprets them
//! as fixed-point values in thousandths of the logged unit, so `"123.5"`
//! becomes `123500`; at most three fraction digits are accepted.  Keeping
//! the values as scaled integers lets every later computation on them be
//! exact.

use vstd::prelude::*;
use vstd::string::StrSliceExecFns;

verus! {

/// One observation at one logical time step for one run.
#[derive(Debug, PartialEq)]
pub struct DataPoint {
    /// Current resident memory, in thousandths; `None` for aggregate-scope
    /// records.
    pub memory_current: Option<u64>,
    /// Peak memory observed so far, in thousandths; `None` for
    /// aggregate-scope records.
    pub memory_peak: Option<u64>,
    /// Tracked file paths and their sizes in thousandths; keys are unique.
    pub files: Vec<(String, u64)>,
    /// Consecutive position of the point within its run, assigned at
    /// ingestion; the raw ordering marker of the log is never used here.
    pub sequence: usize,
    /// Timestamp of the observation, as ticks chosen by the log reader.
    pub timestamp: u64,
    /// Originating process rank; `None` exactly for the aggregate scope.
    pub rank: Option<u32>,
}

/// The mathematical content of a data point: the same fields, with the
/// file mapping read as a sequence.  Two points with the same model are
/// interchangeable everywhere in this crate.
pub ghost struct PointModel {
    pub memory_current: Option<u64>,
    pub memory_peak: Option<u64>,
    pub files: Seq<(String, u64)>,
    pub sequence: nat,
    pub timestamp: u64,
    pub rank: Option<u32>,
}

impl View for DataPoint {
    type V = PointModel;

    open spec fn view(&self) -> PointModel {
        PointModel {
            memory_current: self.memory_current,
            memory_peak: self.memory_peak,
            files: self.files@,
            sequence: self.sequence as nat,
            timestamp: self.timestamp,
            rank: self.rank,
        }
    }
}

impl Clone for DataPoint {
    fn clone(&self) -> (r: Self)
        ensures
            r@ == self@,
    {
        let mut files: Vec<(String, u64)> = Vec::new();
        let n = self.files.len();
        let mut i: usize = 0;
        while i < n
            invariant
                i <= n == self.files@.len(),
                files@.len() == i,
                forall|j: int| 0 <= j < i ==> files@[j] == self.files@[j],
            decreases n - i,
        {
            files.push((self.files[i].0.clone(), self.files[i].1));
            i += 1;
        }
        proof {
            assert(files@ =~= self.files@);
        }
        let r = DataPoint {
            memory_current: self.memory_current,
            memory_peak: self.memory_peak,
            files,
            sequence: self.sequence,
            timestamp: self.timestamp,
            rank: self.rank,
        };
        r
    }
}

/// Why a raw record was rejected.
#[derive(Clone, Copy, PartialEq, Eq, Structural, Debug)]
pub enum ParseError {
    /// A required structural field (name, scope, timestamp) is missing, or
    /// the scope marker has neither the aggregate nor the ranked form.
    MalformedRecord,
    /// A memory or file-size slot cannot be interpreted as a number that
    /// fits the scaled representation.
    InvalidNumericField,
}

// ---------------------------------------------------------------------------
// Decimal digits
// ---------------------------------------------------------------------------
/// Whether `c` is a decimal digit.
pub open spec fn is_dec_digit(c: char) -> bool {
    48 <= c as int <= 57
}

/// The numeric value of a digit character.
pub open spec fn digit_value(c: char) -> int {
    c as int - 48
}

/// Whether every character of `s` is a decimal digit.
pub open spec fn all_dec_digits(s: Seq<char>) -> bool {
    forall|i: int| 0 <= i < s.len() ==> is_dec_digit(#[trigger] s[i])
}

/// The value of a digit string read as a decimal number.
pub open spec fn digits_value(s: Seq<char>) -> int
    decreases s.len(),
{
    if s.len() == 0 {
        0
    } else {
        digits_value(s.drop_last()) * 10 + digit_value(s.last())
    }
}

proof fn lemma_digits_value_nonneg(s: Seq<char>)
    requires
        all_dec_digits(s),
    ensures
        digits_value(s) >= 0,
    decreases s.len(),
{
    if s.len() > 0 {
        assert(all_dec_digits(s.drop_last()));
        lemma_digits_value_nonneg(s.drop_last());
    }
}

/// Reading more digits never makes the value smaller: the value of a
/// prefix is a lower bound for the value of the whole digit string.
proof fn lemma_digits_value_prefix_le(s: Seq<char>, k: int)
    requires
        all_dec_digits(s),
        0 <= k <= s.len(),
    ensures
        digits_value(s.subrange(0, k)) <= digits_value(s),
    decreases s.len() - k,
{
    if k == s.len() {
        assert(s.subrange(0, k) =~= s);
    } else {
        let shorter = s.subrange(0, k);
        let longer = s.subrange(0, k + 1);
        assert(longer.drop_last() =~= shorter);
        assert(all_dec_digits(shorter));
        lemma_digits_value_nonneg(shorter);
        assert(digits_value(longer) == digits_value(shorter) * 10 + digit_value(s[k]));
        lemma_digits_value_prefix_le(s, k + 1);
    }
}

/// A digit string of at most three digits stays under one thousand.
proof fn lemma_digits_value_small(s: Seq<char>)
    requires
        all_dec_digits(s),
        s.len() <= 3,
    ensures
        0 <= digits_value(s) <= 999,
        s.len() <= 2 ==> digits_value(s) <= 99,
        s.len() <= 1 ==> digits_value(s) <= 9,
    decreases s.len(),
{
    if s.len() > 0 {
        assert(all_dec_digits(s.drop_last()));
        lemma_digits_value_small(s.drop_last());
    }
}

/// Whether the characters of `s` in `[from, to)` are all decimal digits.
fn check_all_digits(s: &str, from: usize, to: usize) -> (r: bool)
    requires
        from <= to <= s@.len(),
    ensures
        r == all_dec_digits(s@.subrange(from as int, to as int)),
{
    let ghost sub = s@.subrange(from as int, to as int);
    let mut i: usize = from;
    while i < to
        invariant
            from <= i <= to <= s@.len(),
            sub == s@.subrange(from as int, to as int),
            forall|j: int| 0 <= j < i - from ==> is_dec_digit(#[trigger] sub[j]),
        decreases to - i,
    {
        let c = s.get_char(i);
        let u = c as u32;
        if u < 48 || u > 57 {
            proof {
                assert(sub[i - from] == s@[i as int]);
            }
            return false;
        }
        proof {
            assert(sub[i - from] == s@[i as int]);
        }
        i += 1;
    }
    true
}

/// Reads the digits of `s` in `[from, to)` as a decimal number, or `None`
/// exactly when the value exceeds `u64::MAX`.
fn parse_digits(s: &str, from: usize, to: usize) -> (r: Option<u64>)
    requires
        from <= to <= s@.len(),
        all_dec_digits(s@.subrange(from as int, to as int)),
    ensures
        r is Some <==> digits_value(s@.subrange(from as int, to as int)) <= u64::MAX,
        r is Some ==> r->0 == digits_value(s@.subrange(from as int, to as int)),
{
    let ghost sub = s@.subrange(from as int, to as int);
    let mut acc: u64 = 0;
    let mut i: usize = from;
    while i < to
        invariant
            from <= i <= to <= s@.len(),
            sub == s@.subrange(from as int, to as int),
            all_dec_digits(sub),
            acc == digits_value(s@.subrange(from as int, i as int)),
        decreases to - i,
    {
        let ghost shorter = s@.subrange(from as int, i as int);
        let ghost longer = s@.subrange(from as int, i + 1 as int);
        proof {
            assert(longer.drop_last() =~= shorter);
            assert(longer.last() == s@[i as int]);
            assert(sub[i - from] == s@[i as int]);
            assert(is_dec_digit(s@[i as int]));
        }
        let c = s.get_char(i);
        let d = (c as u32 - 48) as u64;
        if acc > (u64::MAX - d) / 10 {
            proof {
                assert(digits_value(longer) == acc * 10 + d);
                assert(digits_value(longer) > u64::MAX) by {
                    assert(acc >= (u64::MAX - d) / 10 + 1);
                    assert(acc * 10 >= ((u64::MAX - d) / 10 + 1) * 10) by (nonlinear_arith)
                        requires
                            acc >= (u64::MAX - d) / 10 + 1,
                    ;
                    assert(((u64::MAX - d) / 10) * 10 + 10 > u64::MAX - d) by (nonlinear_arith)
                        requires
                            d <= 9,
                    ;
                }
                assert(longer =~= sub.subrange(0, i + 1 - from as int));
                lemma_digits_value_prefix_le(sub, i + 1 - from as int);
                assert(digits_value(sub) > u64::MAX);
            }
            return None;
        }
        proof {
            assert(acc * 10 + d <= u64::MAX) by {
                assert(acc <= (u64::MAX - d) / 10);
                assert(acc * 10 <= ((u64::MAX - d) / 10) * 10) by (nonlinear_arith)
                    requires
                        acc <= (u64::MAX - d) / 10,
                ;
                assert(((u64::MAX - d) / 10) * 10 <= u64::MAX - d);
            }
            assert(digits_value(longer) == acc * 10 + d);
        }
        acc = acc * 10 + d;
        i += 1;
    }
    proof {
        assert(s@.subrange(from as int, to as int) == sub);
    }
    Some(acc)
}

// ---------------------------------------------------------------------------
// Fixed-point values
// ---------------------------------------------------------------------------
/// The index of the first `'.'` in `s` at or after `i`, or the length of
/// `s` when there is none.
pub open spec fn first_dot(s: Seq<char>, i: int) -> int
    decreases s.len() - i,
{
    if i < 0 || i >= s.len() {
        s.len() as int
    } else if s[i] == '.' {
        i
    } else {
        first_dot(s, i + 1)
    }
}

proof fn lemma_first_dot_from(s: Seq<char>, k: int)
    requires
        0 <= k <= s.len(),
        forall|j: int| 0 <= j < k ==> s[j] != '.',
    ensures
        first_dot(s, 0) == first_dot(s, k),
    decreases k,
{
    if k > 0 {
        lemma_first_dot_from(s, k - 1);
        assert(s[k - 1] != '.');
    }
}

/// The whole-unit digits of a fixed-point literal: everything before the
/// first dot.
pub open spec fn int_part(s: Seq<char>) -> Seq<char> {
    s.subrange(0, first_dot(s, 0))
}

/// The fraction digits of a fixed-point literal: everything after the
/// first dot, empty when there is no dot.
pub open spec fn frac_part(s: Seq<char>) -> Seq<char> {
    if first_dot(s, 0) == s.len() {
        Seq::empty()
    } else {
        s.subrange(first_dot(s, 0) + 1, s.len() as int)
    }
}

/// The grammar of a numeric slot: one or more digits, optionally followed
/// by a dot and one to three fraction digits.
pub open spec fn fixed_point_ok(s: Seq<char>) -> bool {
    &&& int_part(s).len() >= 1
    &&& all_dec_digits(int_part(s))
    &&& (first_dot(s, 0) == s.len() || (1 <= frac_part(s).len() <= 3 && all_dec_digits(
        frac_part(s),
    )))
}

/// What one fraction digit is worth, depending on how many there are.
pub open spec fn frac_scale(n: int) -> int {
    if n == 1 {
        100
    } else if n == 2 {
        10
    } else {
        1
    }
}

/// The value of a fixed-point literal in thousandths.
pub open spec fn fixed_point_value(s: Seq<char>) -> int {
    digits_value(int_part(s)) * 1000 + digits_value(frac_part(s)) * frac_scale(
        frac_part(s).len() as int,
    )
}

/// Whether a numeric slot is well-formed and its scaled value fits `u64`.
pub open spec fn scaled_ok(s: Seq<char>) -> bool {
    fixed_point_ok(s) && fixed_point_value(s) <= u64::MAX
}

/// The position of the first dot of `s`, or its length when there is none.
fn find_dot(s: &str) -> (d: usize)
    ensures
        d == first_dot(s@, 0),
        d <= s@.len(),
        d < s@.len() ==> s@[d as int] == '.',
{
    let n = s.unicode_len();
    let mut i: usize = 0;
    while i < n
        invariant
            0 <= i <= n == s@.len(),
            forall|j: int| 0 <= j < i ==> s@[j] != '.',
        decreases n - i,
    {
        if s.get_char(i) == '.' {
            proof {
                lemma_first_dot_from(s@, i as int);
            }
            return i;
        }
        i += 1;
    }
    proof {
        lemma_first_dot_from(s@, n as int);
    }
    n
}

/// Interprets one numeric slot as a scaled value: `Some` exactly when the
/// text matches the fixed-point grammar and the value fits, `None`
/// otherwise.
pub fn parse_scaled(s: &str) -> (r: Option<u64>)
    ensures
        r is Some <==> scaled_ok(s@),
        r is Some ==> r->0 == fixed_point_value(s@),
{
    let n = s.unicode_len();
    let dot = find_dot(s);

    // Whole-unit digits.
    if dot == 0 {
        return None;
    }
    if !check_all_digits(s, 0, dot) {
        return None;
    }

    // Fraction digits; `tail_len` counts the dot itself.
    let tail_len = n - dot;
    let ghost fp = frac_part(s@);
    if dot < n {
        proof {
            assert(fp =~= s@.subrange(dot + 1 as int, n as int));
        }
        if tail_len < 2 || tail_len > 4 {
            return None;
        }
        if !check_all_digits(s, dot + 1, n) {
            return None;
        }
    }
    proof {
        if dot == n {
            assert(fp =~= Seq::<char>::empty());
        }
        assert(fixed_point_ok(s@));
    }

    // The scaled fraction contribution is at most 999.
    let f: u64 = if dot < n {
        let fv = match parse_digits(s, dot + 1, n) {
            Some(v) => v,
            None => {
                // Unreachable: a fraction of at most three digits always
                // fits, as the lemma shows.
                proof {
                    lemma_digits_value_small(fp);
                }
                0
            },
        };
        proof {
            lemma_digits_value_small(fp);
        }
        if tail_len == 2 {
            fv * 100
        } else if tail_len == 3 {
            fv * 10
        } else {
            fv
        }
    } else {
        0
    };
    proof {
        assert(f == digits_value(fp) * frac_scale(fp.len() as int));
        assert(f <= 999) by {
            lemma_digits_value_small(fp);
        }
    }

    // The whole-unit digits, rejected exactly when the total scaled value
    // cannot fit.
    let ip = match parse_digits(s, 0, dot) {
        Some(v) => v,
        None => {
            proof {
                let ipv = digits_value(int_part(s@));
                assert(ipv > u64::MAX);
                lemma_digits_value_nonneg(fp);
                assert(fixed_point_value(s@) > u64::MAX) by (nonlinear_arith)
                    requires
                        fixed_point_value(s@) == ipv * 1000 + digits_value(fp) * frac_scale(
                            fp.len() as int,
                        ),
                        ipv > u64::MAX,
                        digits_value(fp) * frac_scale(fp.len() as int) >= 0,
                ;
            }
            return None;
        },
    };
    let threshold = (u64::MAX - f) / 1000;
    if ip > threshold {
        proof {
            assert(fixed_point_value(s@) == ip * 1000 + f);
            assert(ip * 1000 + f > u64::MAX) by (nonlinear_arith)
                requires
                    ip > (u64::MAX - f) / 1000,
                    f <= 999,
            ;
        }
        return None;
    }
    proof {
        assert(ip * 1000 + f <= u64::MAX) by (nonlinear_arith)
            requires
                ip <= (u64::MAX - f) / 1000,
                f <= u64::MAX,
        ;
        assert(fixed_point_value(s@) == ip * 1000 + f);
    }
    Some(ip * 1000 + f)
}

// ---------------------------------------------------------------------------
// Scope markers
// ---------------------------------------------------------------------------
/// Whether `s` is the ranked scope form: `"proc."` followed by the decimal
/// rank, which must fit `u32`.
pub open spec fn ranked_scope_ok(s: Seq<char>) -> bool {
    &&& s.len() > 5
    &&& s.subrange(0, 5) == "proc."@
    &&& all_dec_digits(s.subrange(5, s.len() as int))
    &&& digits_value(s.subrange(5, s.len() as int)) <= u32::MAX
}

/// Whether `s` is a well-formed scope marker: the aggregate scope
/// `"global"` or a ranked scope `"proc.N"`.
pub open spec fn scope_ok(s: Seq<char>) -> bool {
    s == "global"@ || ranked_scope_ok(s)
}

/// The rank a well-formed scope marker names: `None` exactly for the
/// aggregate scope.
pub open spec fn scope_rank(s: Seq<char>) -> Option<u32> {
    if s == "global"@ {
        None
    } else {
        Some(digits_value(s.subrange(5, s.len() as int)) as u32)
    }
}

/// Whether `s` is the aggregate scope marker.
fn is_global_scope(s: &str) -> (r: bool)
    ensures
        r == (s@ == "global"@),
{
    proof {
        reveal_strlit("global");
    }
    let n = s.unicode_len();
    if n != 6 {
        return false;
    }
    let r = s.get_char(0) == 'g' && s.get_char(1) == 'l' && s.get_char(2) == 'o' && s.get_char(3)
        == 'b' && s.get_char(4) == 'a' && s.get_char(5) == 'l';
    proof {
        if r {
            assert(s@ =~= "global"@);
        }
    }
    r
}

/// Interprets a scope marker: `Some(rank)` exactly for the well-formed
/// forms, with `Some(None)` for the aggregate scope.
pub fn parse_scope(s: &str) -> (r: Option<Option<u32>>)
    ensures
        r is Some <==> scope_ok(s@),
        r is Some ==> r->0 == scope_rank(s@),
{
    if is_global_scope(s) {
        return Some(None);
    }
    proof {
        reveal_strlit("proc.");
    }
    let n = s.unicode_len();
    if n <= 5 {
        return None;
    }
    let prefixed = s.get_char(0) == 'p' && s.get_char(1) == 'r' && s.get_char(2) == 'o'
        && s.get_char(3) == 'c' && s.get_char(4) == '.';
    if !prefixed {
        proof {
            assert(s@.subrange(0, 5)[0] == s@[0]);
            assert(s@.subrange(0, 5)[1] == s@[1]);
            assert(s@.subrange(0, 5)[2] == s@[2]);
            assert(s@.subrange(0, 5)[3] == s@[3]);
            assert(s@.subrange(0, 5)[4] == s@[4]);
            assert(s@.subrange(0, 5) != "proc."@);
        }
        return None;
    }
    proof {
        assert(s@.subrange(0, 5) =~= "proc."@);
    }
    if !check_all_digits(s, 5, n) {
        return None;
    }
    match parse_digits(s, 5, n) {
        Some(v) => {
            if v <= 0xffff_ffff {
                Some(Some(v as u32))
            } else {
                None
            }
        },
        None => None,
    }
}

// ---------------------------------------------------------------------------
// File mappings
// ---------------------------------------------------------------------------
/// Whether the keys of a file mapping are pairwise distinct.
pub open spec fn unique_keys(entries: Seq<(String, u64)>) -> bool {
    forall|i: int, j: int|
        0 <= i < j < entries.len() ==> (#[trigger] entries[i]).0@ != (#[trigger] entries[j]).0@
}

/// One write into a file mapping: an existing key keeps its place and gets
/// the new size, a new key is appended.
pub open spec fn upsert(m: Seq<(String, u64)>, key: String, value: u64) -> Seq<(String, u64)> {
    if exists|i: int| 0 <= i < m.len() && (#[trigger] m[i]).0@ == key@ {
        let i = choose|i: int| 0 <= i < m.len() && (#[trigger] m[i]).0@ == key@;
        m.update(i, (m[i].0, value))
    } else {
        m.push((key, value))
    }
}

/// The file mapping a record's raw entries denote: every size interpreted
/// as a scaled value, duplicate keys overwritten — last write wins — and
/// first appearance deciding the order.
pub open spec fn file_map(entries: Seq<(String, String)>) -> Seq<(String, u64)>
    decreases entries.len(),
{
    if entries.len() == 0 {
        Seq::empty()
    } else {
        upsert(
            file_map(entries.drop_last()),
            entries.last().0,
            fixed_point_value(entries.last().1@) as u64,
        )
    }
}

/// The size stored under `path` in a file mapping that carries it.
pub open spec fn file_size_of(files: Seq<(String, u64)>, path: Seq<char>) -> u64 {
    files[choose|j: int| 0 <= j < files.len() && (#[trigger] files[j]).0@ == path].1
}

/// Whether some raw entry carries `key`.
pub open spec fn raw_files_have(entries: Seq<(String, String)>, key: Seq<char>) -> bool {
    exists|i: int| 0 <= i < entries.len() && (#[trigger] entries[i]).0@ == key
}

/// The scaled size of the last raw entry carrying `key`.
pub open spec fn last_size(entries: Seq<(String, String)>, key: Seq<char>) -> u64
    decreases entries.len(),
{
    if entries.len() == 0 {
        0
    } else if entries.last().0@ == key {
        fixed_point_value(entries.last().1@) as u64
    } else {
        last_size(entries.drop_last(), key)
    }
}

/// In a mapping with unique keys, any two positions carrying the same key
/// are the same position.
pub proof fn lemma_key_index_unique(entries: Seq<(String, u64)>, a: int, b: int)
    requires
        unique_keys(entries),
        0 <= a < entries.len(),
        0 <= b < entries.len(),
        entries[a].0@ == entries[b].0@,
    ensures
        a == b,
{
    if a < b {
        assert(entries[a].0@ != entries[b].0@);
    } else if b < a {
        assert(entries[b].0@ != entries[a].0@);
    }
}

/// In a mapping with unique keys, the size looked up under the key at
/// position `j` is the size stored there.
proof fn lemma_file_size_of_at(m: Seq<(String, u64)>, j: int)
    requires
        unique_keys(m),
        0 <= j < m.len(),
    ensures
        file_size_of(m, m[j].0@) == m[j].1,
{
    let c = choose|i: int| 0 <= i < m.len() && (#[trigger] m[i]).0@ == m[j].0@;
    lemma_key_index_unique(m, c, j);
}

/// What one `upsert` does to a mapping with unique keys: the keys gain at
/// most `key`, the new key holds `value`, and every other key keeps its
/// size.
proof fn lemma_upsert_semantics(m: Seq<(String, u64)>, key: String, value: u64)
    requires
        unique_keys(m),
    ensures
        unique_keys(upsert(m, key, value)),
        forall|k: Seq<char>|
            #[trigger] files_have(upsert(m, key, value), k) == (files_have(m, k) || k == key@),
        file_size_of(upsert(m, key, value), key@) == value,
        forall|k: Seq<char>|
            k != key@ && #[trigger] files_have(m, k) ==> file_size_of(upsert(m, key, value), k)
                == file_size_of(m, k),
{
    let r = upsert(m, key, value);
    if exists|i: int| 0 <= i < m.len() && (#[trigger] m[i]).0@ == key@ {
        let ci = choose|i: int| 0 <= i < m.len() && (#[trigger] m[i]).0@ == key@;
        assert(r == m.update(ci, (m[ci].0, value)));
        assert forall|j: int| 0 <= j < r.len() implies (#[trigger] r[j]).0 == m[j].0 by {}
        assert(unique_keys(r));
        assert forall|k: Seq<char>| #[trigger]
            files_have(r, k) == (files_have(m, k) || k == key@) by {
            if files_have(r, k) {
                let w = choose|i: int| 0 <= i < r.len() && (#[trigger] r[i]).0@ == k;
                assert(m[w].0@ == k);
                assert(files_have(m, k));
            }
            if files_have(m, k) {
                let w = choose|i: int| 0 <= i < m.len() && (#[trigger] m[i]).0@ == k;
                assert(r[w].0@ == k);
                assert(files_have(r, k));
            }
            if k == key@ {
                assert(m[ci].0@ == k);
                assert(files_have(m, k));
            }
        }
        assert(r[ci] == (m[ci].0, value));
        lemma_file_size_of_at(r, ci);
        assert forall|k: Seq<char>|
            k != key@ && #[trigger] files_have(m, k) implies file_size_of(r, k) == file_size_of(
            m,
            k,
        ) by {
            let b = choose|i: int| 0 <= i < m.len() && (#[trigger] m[i]).0@ == k;
            lemma_file_size_of_at(m, b);
            assert(b != ci);
            assert(r[b] == m[b]);
            lemma_file_size_of_at(r, b);
        }
    } else {
        assert(r == m.push((key, value)));
        assert forall|j: int| 0 <= j < m.len() implies (#[trigger] r[j]) == m[j] by {}
        assert(r[m.len() as int] == (key, value));
        assert(unique_keys(r));
        assert forall|k: Seq<char>| #[trigger]
            files_have(r, k) == (files_have(m, k) || k == key@) by {
            if files_have(r, k) {
                let w = choose|i: int| 0 <= i < r.len() && (#[trigger] r[i]).0@ == k;
                if w < m.len() {
                    assert(m[w].0@ == k);
                    assert(files_have(m, k));
                } else {
                    assert(k == key@);
                }
            }
            if files_have(m, k) {
                let w = choose|i: int| 0 <= i < m.len() && (#[trigger] m[i]).0@ == k;
                assert(r[w].0@ == k);
                assert(files_have(r, k));
            }
            if k == key@ {
                assert(r[m.len() as int].0@ == k);
                assert(files_have(r, k));
            }
        }
        lemma_file_size_of_at(r, m.len() as int);
        assert forall|k: Seq<char>|
            k != key@ && #[trigger] files_have(m, k) implies file_size_of(r, k) == file_size_of(
            m,
            k,
        ) by {
            let b = choose|i: int| 0 <= i < m.len() && (#[trigger] m[i]).0@ == k;
            lemma_file_size_of_at(m, b);
            assert(r[b] == m[b]);
            lemma_file_size_of_at(r, b);
        }
    }
}

/// Law: interpreting a record's raw file entries keeps exactly the keys
/// that occur in them, with unique keys, and stores under each key the
/// size of the last raw entry that carried it — duplicate keys overwrite,
/// last write wins.
pub proof fn lemma_file_map_last_write_wins(entries: Seq<(String, String)>, key: Seq<char>)
    ensures
        unique_keys(file_map(entries)),
        files_have(file_map(entries), key) == raw_files_have(entries, key),
        raw_files_have(entries, key) ==> file_size_of(file_map(entries), key) == last_size(
            entries,
            key,
        ),
    decreases entries.len(),
{
    if entries.len() == 0 {
        assert(!files_have(file_map(entries), key));
        assert(!raw_files_have(entries, key));
    } else {
        let rest = entries.drop_last();
        let e = entries.last();
        let val = fixed_point_value(e.1@) as u64;
        let mprev = file_map(rest);
        let m = file_map(entries);
        lemma_file_map_last_write_wins(rest, key);
        lemma_upsert_semantics(mprev, e.0, val);
        assert(m == upsert(mprev, e.0, val));
        assert(raw_files_have(entries, key) == (raw_files_have(rest, key) || e.0@ == key)) by {
            if raw_files_have(entries, key) {
                let w = choose|i: int|
                    0 <= i < entries.len() && (#[trigger] entries[i]).0@ == key;
                if w < rest.len() {
                    assert(rest[w].0@ == key);
                    assert(raw_files_have(rest, key));
                }
            }
            if raw_files_have(rest, key) {
                let w = choose|i: int| 0 <= i < rest.len() && (#[trigger] rest[i]).0@ == key;
                assert(entries[w].0@ == key);
                assert(raw_files_have(entries, key));
            }
            if e.0@ == key {
                assert(entries[entries.len() - 1].0@ == key);
                assert(raw_files_have(entries, key));
            }
        }
        if raw_files_have(entries, key) {
            if e.0@ == key {
                assert(file_size_of(m, key) == val);
            } else {
                assert(files_have(mprev, key));
                assert(file_size_of(m, key) == file_size_of(mprev, key));
            }
        }
    }
}

/// The position of `key` in a file mapping, if present.
fn find_key(entries: &Vec<(String, u64)>, key: &String) -> (r: Option<usize>)
    ensures
        r matches Some(i) ==> i < entries@.len() && entries@[i as int].0@ == key@,
        r is None ==> forall|j: int| 0 <= j < entries@.len() ==> (#[trigger] entries@[j]).0@ != key@,
{
    let n = entries.len();
    let mut i: usize = 0;
    while i < n
        invariant
            i <= n == entries@.len(),
            forall|j: int| 0 <= j < i ==> (#[trigger] entries@[j]).0@ != key@,
        decreases n - i,
    {
        if entries[i].0 == *key {
            return Some(i);
        }
        i += 1;
    }
    None
}

/// Interprets the raw file entries of one record: `Ok` exactly when every
/// size parses, with duplicate keys overwritten last-write-wins so that
/// the resulting keys are unique.
#[verifier::loop_isolation(false)]
pub fn parse_files(entries: &Vec<(String, String)>) -> (r: Result<Vec<(String, u64)>, ParseError>)
    ensures
        r is Ok <==> (forall|i: int|
            0 <= i < entries@.len() ==> scaled_ok((#[trigger] entries@[i]).1@)),
        r matches Ok(m) ==> m@ == file_map(entries@) && unique_keys(m@),
        r matches Err(e) ==> e == ParseError::InvalidNumericField,
{
    let n = entries.len();
    let mut out: Vec<(String, u64)> = Vec::new();
    let mut i: usize = 0;
    while i < n
        invariant
            i <= n,
            out@ == file_map(entries@.subrange(0, i as int)),
            unique_keys(out@),
            forall|j: int| 0 <= j < i ==> scaled_ok((#[trigger] entries@[j]).1@),
        decreases n - i,
    {
        let ghost prefix = entries@.subrange(0, i as int);
        let ghost extended = entries@.subrange(0, i + 1 as int);
        let value = match parse_scaled(entries[i].1.as_str()) {
            Some(v) => v,
            None => {
                return Err(ParseError::InvalidNumericField);
            },
        };
        let ghost before = out@;
        match find_key(&out, &entries[i].0) {
            Some(at) => {
                let kept_key = out[at].0.clone();
                out.set(at, (kept_key, value));
                proof {
                    let key = entries@[i as int].0;
                    let ci = choose|k: int| 0 <= k < before.len() && (#[trigger] before[k]).0@ == key@;
                    assert(ci == at);
                    assert(out@ == upsert(before, key, value));
                }
            },
            None => {
                out.push((entries[i].0.clone(), value));
                proof {
                    let key = entries@[i as int].0;
                    assert(out@ == upsert(before, key, value));
                }
            },
        }
        proof {
            assert(extended.drop_last() =~= prefix);
            assert(out@ == file_map(extended));
        }
        i += 1;
    }
    proof {
        assert(entries@.subrange(0, n as int) =~= entries@);
    }
    Ok(out)
}

// ---------------------------------------------------------------------------
// Whole records
// ---------------------------------------------------------------------------
/// One raw structured log record, as the log reader hands it over: every
/// field split out, nothing validated yet.  Numeric slots stay text until
/// the parser interprets them.
pub struct RawRecord {
    /// The record's name tag.  Required; its content is not used further.
    pub name: Option<String>,
    /// The scope marker: `"global"` or `"proc.N"`.  Required.
    pub scope: Option<String>,
    /// Current resident memory as decimal text, when the log carried it.
    pub memory_current: Option<String>,
    /// Peak memory as decimal text, when the log carried it.
    pub memory_peak: Option<String>,
    /// Tracked file paths with their sizes as decimal text.
    pub files: Vec<(String, String)>,
    /// Timestamp ticks.  Required.
    pub timestamp: Option<u64>,
    /// The raw, possibly non-consecutive ordering marker of the log.  It is
    /// deliberately ignored: points are renumbered at ingestion.
    pub order_marker: u64,
}

/// Whether the required structural fields are present and the scope marker
/// is well-formed.
pub open spec fn structural_ok(r: RawRecord) -> bool {
    &&& r.name is Some
    &&& r.timestamp is Some
    &&& r.scope matches Some(sc) && scope_ok(sc@)
}

/// The rank of a structurally valid record: `None` exactly for the
/// aggregate scope.
pub open spec fn record_rank(r: RawRecord) -> Option<u32> {
    scope_rank(r.scope->0@)
}

/// Whether one optional memory slot can be interpreted.
pub open spec fn mem_slot_ok(slot: Option<String>) -> bool {
    slot matches Some(t) ==> scaled_ok(t@)
}

/// The scaled value of one optional memory slot.
pub open spec fn mem_slot_value(slot: Option<String>) -> Option<u64> {
    match slot {
        None => None,
        Some(t) => Some(fixed_point_value(t@) as u64),
    }
}

/// Whether every numeric slot the point will carry can be interpreted.
/// Memory slots of an aggregate-scope record are not read at all, so they
/// are not validated either.
pub open spec fn numeric_ok(r: RawRecord) -> bool {
    &&& (record_rank(r) is Some ==> mem_slot_ok(r.memory_current) && mem_slot_ok(r.memory_peak))
    &&& (forall|i: int| 0 <= i < r.files@.len() ==> scaled_ok((#[trigger] r.files@[i]).1@))
}

/// Whether a data point is well-formed: its file keys are unique.
pub open spec fn point_wf(p: DataPoint) -> bool {
    unique_keys(p.files@)
}

/// Whether a point carries any memory reading.
pub open spec fn point_has_memory(p: DataPoint) -> bool {
    p.memory_current is Some || p.memory_peak is Some
}

/// Whether a file mapping carries a size entry for the path `path`.
pub open spec fn files_have(files: Seq<(String, u64)>, path: Seq<char>) -> bool {
    exists|j: int| 0 <= j < files.len() && (#[trigger] files[j]).0@ == path
}

/// Whether a point carries a size entry for the file path `path`.
pub open spec fn point_has_file(p: DataPoint, path: Seq<char>) -> bool {
    files_have(p.files@, path)
}

/// Turns one raw log record into a validated data point.
///
/// Structural problems (missing name, scope or timestamp, an unreadable
/// scope marker) are rejected as [`ParseError::MalformedRecord`]; a record
/// whose structure is fine but whose numeric slots cannot be interpreted is
/// rejected as [`ParseError::InvalidNumericField`].  Partial records with
/// absent optional fields are accepted.  Memory readings are taken only
/// from ranked scopes — aggregate-scope records carry none, detected from
/// the scope marker itself, never inferred from absent fields.  The
/// returned point is provisionally numbered zero: its final consecutive
/// sequence number is assigned at ingestion.
pub fn parse_record(raw: &RawRecord) -> (r: Result<DataPoint, ParseError>)
    ensures
        r is Ok <==> structural_ok(*raw) && numeric_ok(*raw),
        (r == Err::<DataPoint, ParseError>(ParseError::MalformedRecord)) <==> !structural_ok(*raw),
        (r == Err::<DataPoint, ParseError>(ParseError::InvalidNumericField)) <==> (structural_ok(
            *raw,
        ) && !numeric_ok(*raw)),
        r matches Ok(p) ==> {
            &&& p.rank == record_rank(*raw)
            &&& p.sequence == 0
            &&& p.timestamp == raw.timestamp->0
            &&& p.files@ == file_map(raw.files@)
            &&& point_wf(p)
            &&& (record_rank(*raw) is None ==> p.memory_current is None && p.memory_peak is None)
            &&& (record_rank(*raw) is Some ==> p.memory_current == mem_slot_value(
                raw.memory_current,
            ) && p.memory_peak == mem_slot_value(raw.memory_peak))
        },
{
    if raw.name.is_none() {
        return Err(ParseError::MalformedRecord);
    }
    let timestamp = match raw.timestamp {
        Some(t) => t,
        None => {
            return Err(ParseError::MalformedRecord);
        },
    };
    let scope = match &raw.scope {
        Some(s) => s,
        None => {
            return Err(ParseError::MalformedRecord);
        },
    };
    let rank = match parse_scope(scope.as_str()) {
        Some(rk) => rk,
        None => {
            return Err(ParseError::MalformedRecord);
        },
    };
    let files = match parse_files(&raw.files) {
        Ok(f) => f,
        Err(e) => {
            return Err(e);
        },
    };
    let mut memory_current: Option<u64> = None;
    let mut memory_peak: Option<u64> = None;
    if rank.is_some() {
        memory_current = match &raw.memory_current {
            None => None,
            Some(t) => match parse_scaled(t.as_str()) {
                Some(v) => Some(v),
                None => {
                    return Err(ParseError::InvalidNumericField);
                },
            },
        };
        memory_peak = match &raw.memory_peak {
            None => None,
            Some(t) => match parse_scaled(t.as_str()) {
                Some(v) => Some(v),
                None => {
                    return Err(ParseError::InvalidNumericField);
                },
            },
        };
    }
    Ok(DataPoint { memory_current, memory_peak, files, sequence: 0, timestamp, rank })
}

} // verus!
