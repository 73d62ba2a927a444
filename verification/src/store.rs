//! Series store: accumulates parsed data points for one run and answers
//! series queries.
//!
//! Points arrive through [`Data::ingest`] in arrival order and are
//! renumbered there into a consecutive, zero-based sequence — the raw
//! ordering markers of the log are never used, and ties are broken by
//! arrival order.  [`Data::available_data`] lists every distinct series key
//! observable in the run; [`DataSeries::get_data`] projects the matching
//! points back out, in sequence order.  The store is append-only: nothing
//! ever deletes points of a loaded run.

use vstd::prelude::*;
use vstd::string::StringExecFns;

use crate::record::{
    file_size_of, files_have, lemma_key_index_unique, point_has_file, point_has_memory, point_wf,
    DataPoint, PointModel,
};

verus! {

/// The measured quantity a series or a plot window tracks.
#[derive(Clone, Copy, PartialEq, Eq, Structural, Debug)]
pub enum DataType {
    Memory,
    DiskSpace,
}

/// One named, time-ordered measurement track: memory for one rank, or the
/// size of one tracked file for one rank.  A series holds no points of its
/// own — it is a key into the store, recomputed on demand.
pub struct DataSeries {
    pub kind: DataType,
    pub rank: Option<u32>,
    /// The tracked file path; meaningful only for disk-space series and
    /// empty for memory series.
    pub file_identifier: String,
}

impl Clone for DataSeries {
    fn clone(&self) -> (r: Self)
        ensures
            r == *self,
    {
        DataSeries {
            kind: self.kind,
            rank: self.rank,
            file_identifier: self.file_identifier.clone(),
        }
    }
}

/// Whether a point with the model `m` belongs to the series keyed by `s`:
/// the rank must agree, and the point must carry the measured quantity — a
/// memory reading for memory series, an entry for the tracked file for
/// disk-space series.
pub open spec fn model_matches(m: PointModel, s: DataSeries) -> bool {
    &&& m.rank == s.rank
    &&& match s.kind {
        DataType::Memory => m.memory_current is Some || m.memory_peak is Some,
        DataType::DiskSpace => files_have(m.files, s.file_identifier@),
    }
}

/// Whether the point `p` belongs to the series keyed by `s`.
pub open spec fn point_matches(p: DataPoint, s: DataSeries) -> bool {
    model_matches(p@, s)
}

/// Whether the run whose points are `points` exhibits the series key
/// `(kind, rank, ident)`: some point must justify it, and memory series
/// always carry the empty identifier.
pub open spec fn run_has_series(
    points: Seq<DataPoint>,
    kind: DataType,
    rank: Option<u32>,
    ident: Seq<char>,
) -> bool {
    match kind {
        DataType::Memory => ident == Seq::<char>::empty() && (exists|i: int|
            0 <= i < points.len() && (#[trigger] points[i]).rank == rank && point_has_memory(
                points[i],
            )),
        DataType::DiskSpace => exists|i: int|
            0 <= i < points.len() && (#[trigger] points[i]).rank == rank && point_has_file(
                points[i],
                ident,
            ),
    }
}

/// Whether `list` already carries a series with the key `(kind, rank,
/// ident)`.
pub open spec fn series_in(
    list: Seq<DataSeries>,
    kind: DataType,
    rank: Option<u32>,
    ident: Seq<char>,
) -> bool {
    exists|i: int|
        0 <= i < list.len() && (#[trigger] list[i]).kind == kind && list[i].rank == rank
            && list[i].file_identifier@ == ident
}

proof fn lemma_series_in_push(
    list: Seq<DataSeries>,
    e: DataSeries,
    kind: DataType,
    rank: Option<u32>,
    ident: Seq<char>,
)
    requires
        series_in(list, kind, rank, ident),
    ensures
        series_in(list.push(e), kind, rank, ident),
{
    let k = choose|k: int|
        0 <= k < list.len() && (#[trigger] list[k]).kind == kind && list[k].rank == rank
            && list[k].file_identifier@ == ident;
    assert(list.push(e)[k] == list[k]);
}

/// The accumulated points of one run, in ingestion order.
pub struct Data {
    pub points: Vec<DataPoint>,
}

impl Data {
    /// Well-formedness of a run: sequence numbers are exactly the point's
    /// position — consecutive from zero, no gaps, no repeats — and every
    /// point's file keys are unique.
    pub open spec fn wf(self) -> bool {
        &&& (forall|i: int|
            0 <= i < self.points@.len() ==> (#[trigger] self.points@[i]).sequence == i)
        &&& (forall|i: int| 0 <= i < self.points@.len() ==> point_wf(#[trigger] self.points@[i]))
    }

    /// An empty run.
    pub fn new() -> (d: Data)
        ensures
            d.points@.len() == 0,
            d.wf(),
    {
        Data { points: Vec::new() }
    }

    /// How many points the run holds.
    pub fn len(&self) -> (n: usize)
        ensures
            n == self.points@.len(),
    {
        self.points.len()
    }

    /// Appends one parsed point, renumbering it on the way in: its sequence
    /// number becomes its arrival position, so the stored counters stay
    /// consecutive whatever the source log carried.  This renumbering
    /// happens here, at read time, never at query time.
    pub fn ingest(&mut self, p: DataPoint)
        requires
            old(self).wf(),
            point_wf(p),
            old(self).points@.len() < usize::MAX,
        ensures
            final(self).points@ == old(self).points@.push(
                (DataPoint { sequence: old(self).points@.len() as usize, ..p }),
            ),
            final(self).wf(),
    {
        let position = self.points.len();
        let mut stored = p;
        stored.sequence = position;
        self.points.push(stored);
    }

    /// Law: within one ingested run the stored sequence counters are
    /// exactly `0 .. N-1`, with no gaps or repeats, in ingestion order —
    /// regardless of the order or gaps of the raw ordering markers.
    pub proof fn lemma_sequences_consecutive(d: Data)
        requires
            d.wf(),
        ensures
            forall|i: int| 0 <= i < d.points@.len() ==> (#[trigger] d.points@[i]).sequence == i,
    {
    }

    /// Enumerates every distinct series key observable in the run: one
    /// memory series per rank with at least one memory reading, one
    /// disk-space series per (rank, tracked file path) pair — each key
    /// listed exactly once.
    #[verifier::loop_isolation(false)]
    pub fn available_data(&self) -> (r: Vec<DataSeries>)
        ensures
            forall|k: int|
                0 <= k < r@.len() ==> run_has_series(
                    self.points@,
                    (#[trigger] r@[k]).kind,
                    r@[k].rank,
                    r@[k].file_identifier@,
                ),
            forall|kind: DataType, rank: Option<u32>, ident: Seq<char>|
                #[trigger] run_has_series(self.points@, kind, rank, ident) ==> series_in(
                    r@,
                    kind,
                    rank,
                    ident,
                ),
            forall|k: int, l: int|
                0 <= k < l < r@.len() ==> !((#[trigger] r@[k]).kind == (#[trigger] r@[l]).kind
                    && r@[k].rank == r@[l].rank && r@[k].file_identifier@
                    == r@[l].file_identifier@),
    {
        let n = self.points.len();
        let mut out: Vec<DataSeries> = Vec::new();
        let mut i: usize = 0;
        while i < n
            invariant
                i <= n,
                forall|k: int|
                    0 <= k < out@.len() ==> run_has_series(
                        self.points@,
                        (#[trigger] out@[k]).kind,
                        out@[k].rank,
                        out@[k].file_identifier@,
                    ),
                forall|kind: DataType, rank: Option<u32>, ident: Seq<char>|
                    #[trigger] run_has_series(
                        self.points@.subrange(0, i as int),
                        kind,
                        rank,
                        ident,
                    ) ==> series_in(out@, kind, rank, ident),
                forall|k: int, l: int|
                    0 <= k < l < out@.len() ==> !((#[trigger] out@[k]).kind == (#[trigger] out@[l]).kind
                        && out@[k].rank == out@[l].rank && out@[k].file_identifier@
                        == out@[l].file_identifier@),
            decreases n - i,
        {
            let ghost prefix = self.points@.subrange(0, i as int);
            let ghost extended = self.points@.subrange(0, i + 1 as int);
            let p = &self.points[i];
            if p.memory_current.is_some() || p.memory_peak.is_some() {
                let empty_ident = String::new();
                if !series_listed(&out, DataType::Memory, &p.rank, &empty_ident) {
                    let ghost before = out@;
                    out.push(
                        DataSeries {
                            kind: DataType::Memory,
                            rank: p.rank,
                            file_identifier: empty_ident,
                        },
                    );
                    proof {
                        assert(out@[before.len() as int].kind == DataType::Memory);
                        assert forall|kind2: DataType, rank2: Option<u32>, ident2: Seq<char>| #[trigger]
                            series_in(before, kind2, rank2, ident2) implies series_in(
                            out@,
                            kind2,
                            rank2,
                            ident2,
                        ) by {
                            lemma_series_in_push(
                                before,
                                out@[before.len() as int],
                                kind2,
                                rank2,
                                ident2,
                            );
                        }
                    }
                }
            }
            let m = p.files.len();
            let mut j: usize = 0;
            while j < m
                invariant
                    j <= m == self.points@[i as int].files@.len(),
                    0 <= i < n,
                    forall|k: int|
                        0 <= k < out@.len() ==> run_has_series(
                            self.points@,
                            (#[trigger] out@[k]).kind,
                            out@[k].rank,
                            out@[k].file_identifier@,
                        ),
                    forall|kind: DataType, rank: Option<u32>, ident: Seq<char>|
                        #[trigger] run_has_series(
                            self.points@.subrange(0, i as int),
                            kind,
                            rank,
                            ident,
                        ) ==> series_in(out@, kind, rank, ident),
                    point_has_memory(self.points@[i as int]) ==> series_in(
                        out@,
                        DataType::Memory,
                        self.points@[i as int].rank,
                        Seq::<char>::empty(),
                    ),
                    forall|jj: int|
                        0 <= jj < j ==> series_in(
                            out@,
                            DataType::DiskSpace,
                            self.points@[i as int].rank,
                            (#[trigger] self.points@[i as int].files@[jj]).0@,
                        ),
                    forall|k: int, l: int|
                        0 <= k < l < out@.len() ==> !((#[trigger] out@[k]).kind == (#[trigger] out@[l]).kind
                            && out@[k].rank == out@[l].rank && out@[k].file_identifier@
                            == out@[l].file_identifier@),
                decreases m - j,
            {
                let path = &p.files[j].0;
                if !series_listed(&out, DataType::DiskSpace, &p.rank, path) {
                    let ghost before = out@;
                    out.push(
                        DataSeries {
                            kind: DataType::DiskSpace,
                            rank: p.rank,
                            file_identifier: path.clone(),
                        },
                    );
                    proof {
                        assert(point_has_file(
                            self.points@[i as int],
                            self.points@[i as int].files@[j as int].0@,
                        ));
                        assert(out@[before.len() as int].kind == DataType::DiskSpace);
                        assert forall|kind2: DataType, rank2: Option<u32>, ident2: Seq<char>| #[trigger]
                            series_in(before, kind2, rank2, ident2) implies series_in(
                            out@,
                            kind2,
                            rank2,
                            ident2,
                        ) by {
                            lemma_series_in_push(
                                before,
                                out@[before.len() as int],
                                kind2,
                                rank2,
                                ident2,
                            );
                        }
                    }
                }
                j += 1;
            }
            proof {
                assert forall|kind: DataType, rank: Option<u32>, ident: Seq<char>|
                    #[trigger] run_has_series(extended, kind, rank, ident) implies series_in(
                    out@,
                    kind,
                    rank,
                    ident,
                ) by {
                    if !run_has_series(prefix, kind, rank, ident) {
                        match kind {
                            DataType::Memory => {
                                let w = choose|w: int|
                                    0 <= w < extended.len() && (#[trigger] extended[w]).rank == rank
                                        && point_has_memory(extended[w]);
                                if w < i {
                                    assert(prefix[w] == extended[w]);
                                    assert(run_has_series(prefix, kind, rank, ident));
                                } else {
                                    assert(extended[w] == self.points@[i as int]);
                                }
                            },
                            DataType::DiskSpace => {
                                let w = choose|w: int|
                                    0 <= w < extended.len() && (#[trigger] extended[w]).rank == rank
                                        && point_has_file(extended[w], ident);
                                if w < i {
                                    assert(prefix[w] == extended[w]);
                                    assert(run_has_series(prefix, kind, rank, ident));
                                } else {
                                    assert(extended[w] == self.points@[i as int]);
                                    let jj = choose|jj: int|
                                        0 <= jj < self.points@[i as int].files@.len() && (
                                        #[trigger] self.points@[i as int].files@[jj]).0@ == ident;
                                    assert(series_in(out@, kind, rank, ident));
                                }
                            },
                        }
                    }
                }
            }
            i += 1;
        }
        proof {
            assert(self.points@.subrange(0, n as int) =~= self.points@);
        }
        out
    }
}

// ---------------------------------------------------------------------------
// Series naming
// ---------------------------------------------------------------------------
/// The decimal digit character for `d`.
pub open spec fn digit_char(d: int) -> char {
    if d == 0 {
        '0'
    } else if d == 1 {
        '1'
    } else if d == 2 {
        '2'
    } else if d == 3 {
        '3'
    } else if d == 4 {
        '4'
    } else if d == 5 {
        '5'
    } else if d == 6 {
        '6'
    } else if d == 7 {
        '7'
    } else if d == 8 {
        '8'
    } else {
        '9'
    }
}

/// The decimal rendering of a number, most significant digit first.
pub open spec fn dec_digits(n: nat) -> Seq<char>
    decreases n,
{
    if n < 10 {
        seq![digit_char(n as int)]
    } else {
        dec_digits(n / 10).push(digit_char((n % 10) as int))
    }
}

/// The word a series kind shows in display names.
pub open spec fn kind_label(k: DataType) -> Seq<char> {
    match k {
        DataType::Memory => "Memory"@,
        DataType::DiskSpace => "DiskSpace"@,
    }
}

/// The word a rank shows in display names: its decimal rendering, or
/// `"global"` for the aggregate scope.
pub open spec fn rank_label(r: Option<u32>) -> Seq<char> {
    match r {
        None => "global"@,
        Some(n) => dec_digits(n as nat),
    }
}

/// The identifier a series shows: the tracked file path for disk-space
/// series, empty for memory series.
pub open spec fn identifier_label(s: DataSeries) -> Seq<char> {
    if s.kind == DataType::DiskSpace {
        s.file_identifier@
    } else {
        Seq::empty()
    }
}

/// The derived display name of a series: kind, rank and identifier joined
/// by underscores.  It is never stored, always recomputed.
pub open spec fn display_name(s: DataSeries) -> Seq<char> {
    kind_label(s.kind) + "_"@ + rank_label(s.rank) + "_"@ + identifier_label(s)
}

proof fn lemma_dec_digits_shape(n: nat)
    ensures
        dec_digits(n).len() >= 1,
        forall|i: int|
            0 <= i < dec_digits(n).len() ==> crate::record::is_dec_digit(
                #[trigger] dec_digits(n)[i],
            ),
        n >= 10 ==> dec_digits(n).len() >= 2,
    decreases n,
{
    if n >= 10 {
        lemma_dec_digits_shape(n / 10);
    }
}

proof fn lemma_dec_digits_injective(a: nat, b: nat)
    requires
        dec_digits(a) == dec_digits(b),
    ensures
        a == b,
    decreases a,
{
    lemma_dec_digits_shape(a);
    lemma_dec_digits_shape(b);
    if a < 10 && b < 10 {
        assert(dec_digits(a)[0] == digit_char(a as int));
        assert(dec_digits(b)[0] == digit_char(b as int));
    } else if a < 10 {
        assert(dec_digits(a).len() == 1);
    } else if b < 10 {
        assert(dec_digits(b).len() == 1);
    } else {
        let pa = dec_digits(a / 10);
        let pb = dec_digits(b / 10);
        assert(dec_digits(a) == pa.push(digit_char((a % 10) as int)));
        assert(pa.push(digit_char((a % 10) as int)).drop_last() =~= pa);
        assert(pb.push(digit_char((b % 10) as int)).drop_last() =~= pb);
        assert(pa == pb);
        lemma_dec_digits_injective(a / 10, b / 10);
        assert(dec_digits(a).last() == digit_char((a % 10) as int));
        assert(dec_digits(b).last() == digit_char((b % 10) as int));
        assert(a % 10 == b % 10);
        assert(a == (a / 10) * 10 + a % 10) by (nonlinear_arith);
        assert(b == (b / 10) * 10 + b % 10) by (nonlinear_arith);
    }
}

proof fn lemma_rank_label_shape(r: Option<u32>)
    ensures
        rank_label(r).len() >= 1,
        forall|i: int| 0 <= i < rank_label(r).len() ==> (#[trigger] rank_label(r)[i]) != '_',
{
    match r {
        None => {
            reveal_strlit("global");
            assert forall|i: int|
                0 <= i < rank_label(r).len() implies (#[trigger] rank_label(r)[i]) != '_' by {
                assert("global"@[0] == 'g' && "global"@[1] == 'l' && "global"@[2] == 'o'
                    && "global"@[3] == 'b' && "global"@[4] == 'a' && "global"@[5] == 'l');
            }
        },
        Some(n) => {
            lemma_dec_digits_shape(n as nat);
            assert forall|i: int|
                0 <= i < rank_label(r).len() implies (#[trigger] rank_label(r)[i]) != '_' by {
                assert(crate::record::is_dec_digit(rank_label(r)[i]));
            }
        },
    }
}

proof fn lemma_rank_label_injective(r1: Option<u32>, r2: Option<u32>)
    requires
        rank_label(r1) == rank_label(r2),
    ensures
        r1 == r2,
{
    reveal_strlit("global");
    match (r1, r2) {
        (Option::None, Option::None) => {},
        (Option::None, Option::Some(n)) => {
            lemma_dec_digits_shape(n as nat);
            assert("global"@[0] == 'g');
            assert(crate::record::is_dec_digit(dec_digits(n as nat)[0]));
        },
        (Option::Some(n), Option::None) => {
            lemma_dec_digits_shape(n as nat);
            assert("global"@[0] == 'g');
            assert(crate::record::is_dec_digit(dec_digits(n as nat)[0]));
        },
        (Option::Some(n1), Option::Some(n2)) => {
            lemma_dec_digits_injective(n1 as nat, n2 as nat);
        },
    }
}

/// Law: display names are unique within one run's listing — two series
/// that render the same name carry the same key.  (Series produced by
/// [`Data::available_data`] always have an empty identifier when their
/// kind is memory, which the hypotheses reflect.)
pub proof fn lemma_display_names_unique(s1: DataSeries, s2: DataSeries)
    requires
        display_name(s1) == display_name(s2),
        s1.kind == DataType::Memory ==> s1.file_identifier@ == Seq::<char>::empty(),
        s2.kind == DataType::Memory ==> s2.file_identifier@ == Seq::<char>::empty(),
    ensures
        s1.kind == s2.kind,
        s1.rank == s2.rank,
        s1.file_identifier@ == s2.file_identifier@,
{
    reveal_strlit("Memory");
    reveal_strlit("DiskSpace");
    reveal_strlit("_");
    let n1 = display_name(s1);
    let n2 = display_name(s2);
    let k1 = kind_label(s1.kind);
    let k2 = kind_label(s2.kind);
    let r1 = rank_label(s1.rank);
    let r2 = rank_label(s2.rank);
    let i1 = identifier_label(s1);
    let i2 = identifier_label(s2);
    lemma_rank_label_shape(s1.rank);
    lemma_rank_label_shape(s2.rank);
    assert("_"@.len() == 1 && "_"@[0] == '_');

    // The kinds agree: otherwise the names differ at index 6, where one
    // has its first underscore and the other the 'a' of its kind label.
    if s1.kind != s2.kind {
        assert("Memory"@.len() == 6 && "DiskSpace"@.len() == 9);
        assert("DiskSpace"@[6] == 'a');
        if s1.kind == DataType::Memory {
            assert(n1[6] == '_');
            assert(n2[6] == 'a');
        } else {
            assert(n1[6] == 'a');
            assert(n2[6] == '_');
        }
        assert(false);
    }
    assert(k1 == k2);
    let off = k1.len() as int + 1;

    // The rank labels have the same length: otherwise the shorter one's
    // closing underscore falls inside the other's underscore-free label.
    assert(n1[k1.len() as int] == '_');
    if r1.len() < r2.len() {
        assert(n1[off + r1.len() as int] == '_');
        assert(n2[off + r1.len() as int] == r2[r1.len() as int]);
        assert(false);
    }
    if r2.len() < r1.len() {
        assert(n2[off + r2.len() as int] == '_');
        assert(n1[off + r2.len() as int] == r1[r2.len() as int]);
        assert(false);
    }

    // Equal length and equal characters: the rank labels, and then the
    // identifiers, agree.
    assert(r1 =~= r2) by {
        assert forall|i: int| 0 <= i < r1.len() implies r1[i] == r2[i] by {
            assert(n1[off + i] == r1[i]);
            assert(n2[off + i] == r2[i]);
        }
    }
    lemma_rank_label_injective(s1.rank, s2.rank);
    assert(n1.len() == off + r1.len() + 1 + i1.len() as int);
    assert(n2.len() == off + r2.len() + 1 + i2.len() as int);
    assert(i1 =~= i2) by {
        assert forall|i: int| 0 <= i < i1.len() implies i1[i] == i2[i] by {
            assert(n1[off + r1.len() as int + 1 + i] == i1[i]);
            assert(n2[off + r2.len() as int + 1 + i] == i2[i]);
        }
    }
    if s1.kind == DataType::DiskSpace {
        assert(s1.file_identifier@ == i1 && s2.file_identifier@ == i2);
    }
}

/// A one-character string for the digit `d`.
fn digit_to_string(d: u32) -> (r: String)
    requires
        d < 10,
    ensures
        r@ == seq![digit_char(d as int)],
{
    match d {
        0 => {
            let r = String::from_str("0");
            proof {
                reveal_strlit("0");
                assert(r@ =~= seq![digit_char(0)]);
            }
            r
        },
        1 => {
            let r = String::from_str("1");
            proof {
                reveal_strlit("1");
                assert(r@ =~= seq![digit_char(1)]);
            }
            r
        },
        2 => {
            let r = String::from_str("2");
            proof {
                reveal_strlit("2");
                assert(r@ =~= seq![digit_char(2)]);
            }
            r
        },
        3 => {
            let r = String::from_str("3");
            proof {
                reveal_strlit("3");
                assert(r@ =~= seq![digit_char(3)]);
            }
            r
        },
        4 => {
            let r = String::from_str("4");
            proof {
                reveal_strlit("4");
                assert(r@ =~= seq![digit_char(4)]);
            }
            r
        },
        5 => {
            let r = String::from_str("5");
            proof {
                reveal_strlit("5");
                assert(r@ =~= seq![digit_char(5)]);
            }
            r
        },
        6 => {
            let r = String::from_str("6");
            proof {
                reveal_strlit("6");
                assert(r@ =~= seq![digit_char(6)]);
            }
            r
        },
        7 => {
            let r = String::from_str("7");
            proof {
                reveal_strlit("7");
                assert(r@ =~= seq![digit_char(7)]);
            }
            r
        },
        8 => {
            let r = String::from_str("8");
            proof {
                reveal_strlit("8");
                assert(r@ =~= seq![digit_char(8)]);
            }
            r
        },
        _ => {
            let r = String::from_str("9");
            proof {
                reveal_strlit("9");
                assert(r@ =~= seq![digit_char(9)]);
            }
            r
        },
    }
}

/// The decimal rendering of `n`.
fn u32_to_string(n: u32) -> (r: String)
    ensures
        r@ == dec_digits(n as nat),
    decreases n,
{
    if n < 10 {
        digit_to_string(n)
    } else {
        let mut s = u32_to_string(n / 10);
        let last = digit_to_string(n % 10);
        s.append(last.as_str());
        proof {
            assert(s@ =~= dec_digits(n as nat));
        }
        s
    }
}

impl DataSeries {
    /// The derived display name, `kind_rank_identifier`.
    pub fn name(&self) -> (r: String)
        ensures
            r@ == display_name(*self),
    {
        let mut r = match self.kind {
            DataType::Memory => String::from_str("Memory"),
            DataType::DiskSpace => String::from_str("DiskSpace"),
        };
        r.append("_");
        match self.rank {
            None => r.append("global"),
            Some(n) => {
                let digits = u32_to_string(n);
                r.append(digits.as_str());
            },
        }
        r.append("_");
        let ident = self.identifier();
        r.append(ident.as_str());
        proof {
            assert(r@ =~= display_name(*self));
        }
        r
    }

    /// The tracked file path for disk-space series; empty for memory
    /// series, whose key needs no file.
    pub fn identifier(&self) -> (r: String)
        ensures
            r@ == identifier_label(*self),
    {
        match self.kind {
            DataType::DiskSpace => self.file_identifier.clone(),
            DataType::Memory => String::new(),
        }
    }

    /// The points of the run that belong to this series, in sequence
    /// order.  A key that matches nothing yields an empty sequence — never
    /// an error — as happens when a view was created before any matching
    /// data arrived.  A step at which a tracked file is not reported
    /// contributes no point: a gap in the series, never an implicit zero.
    #[verifier::loop_isolation(false)]
    pub fn get_data(&self, data: &Data) -> (r: Vec<DataPoint>)
        ensures
            r@.map_values(|p: DataPoint| p@) == data.points@.map_values(
                |p: DataPoint| p@,
            ).filter(|m: PointModel| model_matches(m, *self)),
            (forall|i: int|
                0 <= i < data.points@.len() ==> !point_matches(
                    #[trigger] data.points@[i],
                    *self,
                )) ==> r@.len() == 0,
    {
        let ghost pred = |m: PointModel| model_matches(m, *self);
        let ghost vf = |p: DataPoint| p@;
        let ghost models = data.points@.map_values(vf);
        let n = data.points.len();
        let mut out: Vec<DataPoint> = Vec::new();
        let mut i: usize = 0;
        while i < n
            invariant
                i <= n == data.points@.len(),
                out@.map_values(vf) == models.subrange(0, i as int).filter(pred),
                out@.len() > 0 ==> exists|k: int|
                    0 <= k < i && point_matches(#[trigger] data.points@[k], *self),
            decreases n - i,
        {
            let ghost prefix = models.subrange(0, i as int);
            let ghost extended = models.subrange(0, i + 1 as int);
            let ghost before = out@;
            if matches_series(&data.points[i], self) {
                out.push(data.points[i].clone());
                proof {
                    assert(out@.map_values(vf) =~= before.map_values(vf).push(
                        data.points@[i as int]@,
                    ));
                }
            }
            proof {
                assert(models[i as int] == data.points@[i as int]@);
                assert(extended =~= prefix.push(models[i as int]));
                prefix.lemma_filter_push(models[i as int], pred);
                assert(out@.map_values(vf) == extended.filter(pred));
            }
            i += 1;
        }
        proof {
            assert(models.subrange(0, n as int) =~= models);
        }
        out
    }

    /// The plotted pairs of this series, ready for a drawing surface: `x`
    /// is the point's consecutive sequence number, `y` the scaled value of
    /// the series' measured quantity.
    #[verifier::loop_isolation(false)]
    pub fn plot_points(&self, data: &Data) -> (r: Vec<(u64, u64)>)
        requires
            data.wf(),
        ensures
            r@ == data.points@.map_values(|p: DataPoint| p@).filter(
                |m: PointModel| model_matches(m, *self),
            ).map_values(|m: PointModel| (m.sequence as u64, point_value(m, *self))),
    {
        let ghost pred = |m: PointModel| model_matches(m, *self);
        let ghost val = |m: PointModel| (m.sequence as u64, point_value(m, *self));
        let ghost models = data.points@.map_values(|p: DataPoint| p@);
        let n = data.points.len();
        let mut out: Vec<(u64, u64)> = Vec::new();
        let mut i: usize = 0;
        while i < n
            invariant
                i <= n == data.points@.len(),
                out@ == models.subrange(0, i as int).filter(pred).map_values(val),
            decreases n - i,
        {
            let ghost prefix = models.subrange(0, i as int);
            let ghost extended = models.subrange(0, i + 1 as int);
            let p = &data.points[i];
            if matches_series(p, self) {
                let y = match self.kind {
                    DataType::Memory => match p.memory_current {
                        Some(v) => v,
                        None => match p.memory_peak {
                            Some(v) => v,
                            None => 0,  // unreachable: a matching memory point has a reading
                        },
                    },
                    DataType::DiskSpace => file_size(p, &self.file_identifier),
                };
                out.push((p.sequence as u64, y));
                proof {
                    assert(y == point_value(models[i as int], *self));
                }
            }
            proof {
                assert(models[i as int] == data.points@[i as int]@);
                assert(extended =~= prefix.push(models[i as int]));
                prefix.lemma_filter_push(models[i as int], pred);
                assert(extended.filter(pred).map_values(val) =~= out@);
            }
            i += 1;
        }
        proof {
            assert(models.subrange(0, n as int) =~= models);
        }
        out
    }
}

/// The plotted y value of a point that matches the series `s`: for memory
/// series the current reading, or the peak when only it was logged; for
/// disk-space series the size stored under the tracked path.
pub open spec fn point_value(m: PointModel, s: DataSeries) -> u64 {
    match s.kind {
        DataType::Memory => if m.memory_current is Some {
            m.memory_current->0
        } else {
            m.memory_peak->0
        },
        DataType::DiskSpace => file_size_of(m.files, s.file_identifier@),
    }
}

/// Looks up the size entry of `path` in a well-formed point that carries
/// one.
#[verifier::loop_isolation(false)]
fn file_size(p: &DataPoint, path: &String) -> (v: u64)
    requires
        point_wf(*p),
        point_has_file(*p, path@),
    ensures
        v == file_size_of(p.files@, path@),
{
    let n = p.files.len();
    let mut j: usize = 0;
    while j < n
        invariant
            j <= n == p.files@.len(),
            forall|k: int| 0 <= k < j ==> (#[trigger] p.files@[k]).0@ != path@,
        decreases n - j,
    {
        if p.files[j].0 == *path {
            proof {
                let cj = choose|k: int|
                    0 <= k < p.files@.len() && (#[trigger] p.files@[k]).0@ == path@;
                lemma_key_index_unique(p.files@, cj, j as int);
            }
            return p.files[j].1;
        }
        j += 1;
    }
    proof {
        assert(false);
    }
    0
}

/// Whether `p` belongs to the series keyed by `s`.
fn matches_series(p: &DataPoint, s: &DataSeries) -> (r: bool)
    ensures
        r == point_matches(*p, *s),
{
    if !rank_eq(&p.rank, &s.rank) {
        return false;
    }
    match s.kind {
        DataType::Memory => p.memory_current.is_some() || p.memory_peak.is_some(),
        DataType::DiskSpace => has_file_entry(p, &s.file_identifier),
    }
}

/// Whether `p` carries a size entry for `path`.
fn has_file_entry(p: &DataPoint, path: &String) -> (r: bool)
    ensures
        r == point_has_file(*p, path@),
{
    let n = p.files.len();
    let mut j: usize = 0;
    while j < n
        invariant
            j <= n == p.files@.len(),
            forall|k: int| 0 <= k < j ==> (#[trigger] p.files@[k]).0@ != path@,
        decreases n - j,
    {
        if p.files[j].0 == *path {
            return true;
        }
        j += 1;
    }
    false
}

/// Whether `out` already lists the series keyed by `(kind, rank, ident)`.
fn series_listed(out: &Vec<DataSeries>, kind: DataType, rank: &Option<u32>, ident: &String) -> (r:
    bool)
    ensures
        r == series_in(out@, kind, *rank, ident@),
{
    let n = out.len();
    let mut i: usize = 0;
    while i < n
        invariant
            i <= n == out@.len(),
            forall|j: int|
                0 <= j < i ==> !((#[trigger] out@[j]).kind == kind && out@[j].rank == *rank
                    && out@[j].file_identifier@ == ident@),
        decreases n - i,
    {
        if out[i].kind == kind && rank_eq(&out[i].rank, rank) && out[i].file_identifier == *ident {
            return true;
        }
        i += 1;
    }
    false
}

/// Whether two optional ranks are the same.
fn rank_eq(a: &Option<u32>, b: &Option<u32>) -> (r: bool)
    ensures
        r == (*a == *b),
{
    match (a, b) {
        (None, None) => true,
        (Some(x), Some(y)) => *x == *y,
        _ => false,
    }
}

} // verus!
