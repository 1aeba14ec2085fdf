//! RAPL power metering core: CPU topology detection, hardware register
//! decoding, and two-sample power computation in exact scaled units.

use vstd::prelude::*;
use vstd::set::group_set_axioms;
use vstd::seq_lib::seq_to_set_is_finite;
use vstd::arithmetic::power2::{pow2, lemma_pow2_strictly_increases, lemma2_to64};
use vstd::bits::lemma_u64_shl_is_mul;
use crate::parse::{valid_utf8, trim_end, all_digits, digits_value, is_valid_utf8, parse_decimal};

verus! {

/// Largest logical CPU id the detector enumerates.
pub const MAX_CPUS: usize = 1024;

/// Number of slots in the package-id-indexed core-count map.
pub const MAX_PACKAGES: usize = 16;

/// Failures of topology detection and power sampling.
#[derive(Clone, Copy, Debug, PartialEq, Eq, Structural)]
pub enum RaplError {
    /// A pseudo-file held bytes that are not valid UTF-8.
    Utf8,
    /// A package-id file did not hold a decimal unsigned integer.
    Parse,
    /// A file or register channel could not be opened or read; raised by the
    /// I/O shell that feeds this library, never by the library itself.
    Io,
    /// The SMT status file was empty.
    SmtCheck,
    /// More distinct package ids appeared than the map has slots.
    Capacity,
}

/// The named hardware counters the sampler reads, each bound to a constant
/// 64-bit register address.
#[derive(Clone, Copy, Debug, PartialEq, Eq, Structural)]
pub enum MsrFields {
    /// The unit descriptor holding the energy-scaling exponent.
    PowerUnit,
    /// The per-core energy accumulator.
    CoreEnergy,
    /// The per-package energy accumulator.
    PackageEnergy,
}

impl MsrFields {
    /// The register address of this counter.
    pub open spec fn spec_address(self) -> u64 {
        match self {
            MsrFields::PowerUnit => 0xC0010299,
            MsrFields::CoreEnergy => 0xC001029A,
            MsrFields::PackageEnergy => 0xC001029B,
        }
    }

    /// The register address of this counter.
    pub fn address(self) -> (a: u64)
        ensures
            a == self.spec_address(),
    {
        match self {
            MsrFields::PowerUnit => 0xC0010299,
            MsrFields::CoreEnergy => 0xC001029A,
            MsrFields::PackageEnergy => 0xC001029B,
        }
    }
}

/// The bit fields of the unit-descriptor register, each a mask and a shift.
#[derive(Clone, Copy, Debug, PartialEq, Eq, Structural)]
pub enum AmdUnitMasks {
    /// The energy-scaling exponent, bits 8 to 12.
    Energy,
}

impl AmdUnitMasks {
    /// The mask selecting this field's bits.
    pub open spec fn spec_mask(self) -> u64 {
        match self {
            AmdUnitMasks::Energy => 0x1F00,
        }
    }

    /// The right shift that moves this field's bits to the bottom.
    pub open spec fn spec_shift(self) -> u64 {
        match self {
            AmdUnitMasks::Energy => 8,
        }
    }

    /// The mask selecting this field's bits.
    pub fn mask(self) -> (m: u64)
        ensures
            m == self.spec_mask(),
    {
        match self {
            AmdUnitMasks::Energy => 0x1F00,
        }
    }

    /// The right shift that moves this field's bits to the bottom.
    pub fn shift(self) -> (s: u64)
        ensures
            s == self.spec_shift(),
    {
        match self {
            AmdUnitMasks::Energy => 8,
        }
    }
}

/// The running state of topology detection, one step per enumerated CPU:
/// thread and package counts, the package-id-indexed core-count map, and the
/// running per-package core counter.
pub struct TopoState {
    pub threads: int,
    pub packages: int,
    pub map: Seq<Option<int>>,
    pub run: int,
}

/// Detection state before any CPU has been seen.
pub open spec fn topo_init() -> TopoState {
    TopoState {
        threads: 0,
        packages: 0,
        map: Seq::new(MAX_PACKAGES as nat, |j: int| None),
        run: 0,
    }
}

/// One detection step for a CPU reporting package id `p` (with
/// `0 <= p < MAX_PACKAGES`): the thread count grows by one; a package id not
/// seen before grows the package count and restarts the running core
/// counter; the map slot for `p` receives the counter, halved when SMT is on.
pub open spec fn topo_step(st: TopoState, smt: bool, p: int) -> TopoState {
    let fresh = st.map[p] is None;
    let packages = if fresh {
        st.packages + 1
    } else {
        st.packages
    };
    let run = if fresh {
        1
    } else {
        st.run + 1
    };
    let entry = if smt {
        run / 2
    } else {
        run
    };
    TopoState { threads: st.threads + 1, packages, map: st.map.update(p, Some(entry)), run }
}

/// Detection state after all CPUs of `ids` (in enumeration order) have been
/// seen.
pub open spec fn topo_fold(smt: bool, ids: Seq<int>) -> TopoState
    decreases ids.len(),
{
    if ids.len() == 0 {
        topo_init()
    } else {
        topo_step(topo_fold(smt, ids.drop_last()), smt, ids.last())
    }
}

/// How many slots of the map are populated.
pub open spec fn count_some(m: Seq<Option<int>>) -> int
    decreases m.len(),
{
    if m.len() == 0 {
        0
    } else {
        count_some(m.drop_last()) + (if m.last() is Some {
            1int
        } else {
            0int
        })
    }
}

proof fn lemma_count_some_all_none(m: Seq<Option<int>>)
    requires
        forall|j: int| 0 <= j < m.len() ==> (#[trigger] m[j]) is None,
    ensures
        count_some(m) == 0,
    decreases m.len(),
{
    if m.len() > 0 {
        lemma_count_some_all_none(m.drop_last());
    }
}

proof fn lemma_count_some_update(m: Seq<Option<int>>, p: int, v: int)
    requires
        0 <= p < m.len(),
    ensures
        count_some(m.update(p, Some(v))) == count_some(m) + (if m[p] is Some {
            0int
        } else {
            1int
        }),
    decreases m.len(),
{
    let m2 = m.update(p, Some(v));
    if p == m.len() - 1 {
        assert(m2.drop_last() =~= m.drop_last());
        assert(m2.last() == Some(v));
    } else {
        assert(m2.drop_last() =~= m.drop_last().update(p, Some(v)));
        lemma_count_some_update(m.drop_last(), p, v);
        assert(m2.last() == m.last());
        assert(m.drop_last()[p] == m[p]);
    }
}

/// Shape of the folded detection state: the thread count is the number of
/// enumerated CPUs, the package count is the number of populated map slots,
/// a slot is populated exactly when its package id was seen, and every entry
/// and the running counter stay within the thread count.
pub proof fn lemma_topo_fold_wf(smt: bool, ids: Seq<int>)
    requires
        forall|j: int| 0 <= j < ids.len() ==> 0 <= #[trigger] ids[j] < MAX_PACKAGES,
    ensures
        ({
            let m = topo_fold(smt, ids);
            &&& m.map.len() == MAX_PACKAGES
            &&& m.threads == ids.len()
            &&& m.packages == count_some(m.map)
            &&& 0 <= m.run <= m.threads
            &&& forall|q: int|
                0 <= q < MAX_PACKAGES ==> ((#[trigger] m.map[q]) is Some <==> ids.contains(q))
            &&& forall|q: int|
                0 <= q < MAX_PACKAGES ==> ((#[trigger] m.map[q]) matches Some(c) ==> 0 <= c
                    <= m.threads)
        }),
    decreases ids.len(),
{
    let m = topo_fold(smt, ids);
    if ids.len() == 0 {
        lemma_count_some_all_none(m.map);
        assert(forall|q: int| 0 <= q < MAX_PACKAGES ==> !ids.contains(q));
    } else {
        let prefix = ids.drop_last();
        let p = ids.last();
        assert(forall|j: int| 0 <= j < prefix.len() ==> 0 <= #[trigger] prefix[j] < MAX_PACKAGES);
        lemma_topo_fold_wf(smt, prefix);
        let prev = topo_fold(smt, prefix);
        assert(ids[ids.len() - 1] == p);
        assert(0 <= p < MAX_PACKAGES);
        lemma_count_some_update(prev.map, p, if smt {
            (if prev.map[p] is None {
                1int
            } else {
                prev.run + 1
            }) / 2
        } else {
            if prev.map[p] is None {
                1int
            } else {
                prev.run + 1
            }
        });
        assert forall|q: int| 0 <= q < MAX_PACKAGES implies ((#[trigger] m.map[q]) is Some
            <==> ids.contains(q)) by {
            if q == p {
                assert(ids[ids.len() - 1] == q);
                assert(ids.contains(q));
            } else {
                assert(m.map[q] == prev.map[q]);
                if prefix.contains(q) {
                    let w = choose|w: int| 0 <= w < prefix.len() && prefix[w] == q;
                    assert(ids[w] == q);
                    assert(ids.contains(q));
                }
                if ids.contains(q) {
                    let w = choose|w: int| 0 <= w < ids.len() && ids[w] == q;
                    assert(w < ids.len() - 1);
                    assert(prefix[w] == q);
                    assert(prefix.contains(q));
                }
            }
        }
    }
}

/// The detected thread count equals the number of enumerated CPUs: with the
/// package-id files of CPU ids `0..k` present and the file of CPU id `k`
/// absent, enumeration hands detection `k` contents and `k` threads are
/// counted.
pub proof fn lemma_thread_count(smt: bool, ids: Seq<int>)
    requires
        forall|j: int| 0 <= j < ids.len() ==> 0 <= #[trigger] ids[j] < MAX_PACKAGES,
    ensures
        topo_fold(smt, ids).threads == ids.len(),
{
    lemma_topo_fold_wf(smt, ids);
}

/// The detected package count equals the number of distinct package ids seen
/// across all enumerated CPUs.
pub proof fn lemma_package_count_distinct(smt: bool, ids: Seq<int>)
    requires
        forall|j: int| 0 <= j < ids.len() ==> 0 <= #[trigger] ids[j] < MAX_PACKAGES,
    ensures
        topo_fold(smt, ids).packages == ids.to_set().len(),
    decreases ids.len(),
{
    broadcast use group_set_axioms, seq_to_set_is_finite;

    if ids.len() == 0 {
        assert(ids.to_set() =~= Set::empty());
    } else {
        let prefix = ids.drop_last();
        let p = ids.last();
        assert(forall|j: int| 0 <= j < prefix.len() ==> 0 <= #[trigger] prefix[j] < MAX_PACKAGES);
        lemma_package_count_distinct(smt, prefix);
        lemma_topo_fold_wf(smt, prefix);
        let prev = topo_fold(smt, prefix);
        assert(ids.to_set() =~= prefix.to_set().insert(p)) by {
            assert forall|q: int| ids.to_set().contains(q) implies prefix.to_set().insert(
                p,
            ).contains(q) by {
                let w = choose|w: int| 0 <= w < ids.len() && ids[w] == q;
                if w < ids.len() - 1 {
                    assert(prefix[w] == q);
                    assert(prefix.contains(q));
                }
            }
            assert forall|q: int| prefix.to_set().insert(p).contains(q) implies ids.to_set()
                .contains(q) by {
                if q == p {
                    assert(ids[ids.len() - 1] == q);
                } else {
                    let w = choose|w: int| 0 <= w < prefix.len() && prefix[w] == q;
                    assert(ids[w] == q);
                }
            }
        }
        if prev.map[p] is Some {
            assert(prefix.contains(p));
            assert(prefix.to_set().contains(p));
            assert(prefix.to_set().insert(p) =~= prefix.to_set());
        } else {
            assert(!prefix.contains(p));
            assert(!prefix.to_set().contains(p));
        }
    }
}

/// The package-id map with its entries widened to mathematical integers.
pub open spec fn map_as_ints(m: Seq<Option<usize>>) -> Seq<Option<int>> {
    Seq::new(
        m.len(),
        |j: int|
            match m[j] {
                Some(c) => Some(c as int),
                None => None,
            },
    )
}

/// The CPU topology: SMT state, thread/core/package counts, and a
/// package-id-indexed map of per-package core counts.
#[derive(Debug, PartialEq)]
pub struct PackageInfo {
    pub smt: bool,
    pub threads: usize,
    pub cores: usize,
    pub packages: usize,
    pub package_map: Vec<Option<usize>>,
}

impl PackageInfo {
    /// The core-count map, entries widened to mathematical integers.
    pub open spec fn map_ints(&self) -> Seq<Option<int>> {
        map_as_ints(self.package_map@)
    }

    /// Internal consistency: the map has one slot per supported package id,
    /// exactly `packages` of them are populated, each entry stays within the
    /// thread count, and the core count derives from the thread count by the
    /// SMT rule.
    pub open spec fn wf(&self) -> bool {
        &&& self.package_map@.len() == MAX_PACKAGES
        &&& self.threads <= MAX_CPUS
        &&& self.packages == count_some(self.map_ints())
        &&& self.cores == (if self.smt {
            self.threads as int / 2
        } else {
            self.threads as int
        })
        &&& forall|q: int|
            0 <= q < MAX_PACKAGES ==> ((#[trigger] self.map_ints()[q]) matches Some(c) ==> 0 <= c
                <= self.threads)
    }

    /// The fields agree with the detection fold over the package ids `ids`.
    pub open spec fn matches_model(&self, smt: bool, ids: Seq<int>) -> bool {
        let m = topo_fold(smt, ids);
        &&& self.smt == smt
        &&& self.threads == m.threads
        &&& self.packages == m.packages
        &&& self.map_ints() == m.map
        &&& self.cores == (if smt {
            m.threads / 2
        } else {
            m.threads
        })
    }

    /// Whether simultaneous multithreading is active.
    pub fn smt(&self) -> (r: bool)
        ensures
            r == self.smt,
    {
        self.smt
    }

    /// The number of logical CPUs.
    pub fn threads(&self) -> (r: usize)
        ensures
            r == self.threads,
    {
        self.threads
    }

    /// The number of physical cores.
    pub fn cores(&self) -> (r: usize)
        ensures
            r == self.cores,
    {
        self.cores
    }

    /// The number of packages.
    pub fn packages(&self) -> (r: usize)
        ensures
            r == self.packages,
    {
        self.packages
    }

    /// The package-id-indexed map of per-package core counts.
    pub fn package_map(&self) -> (r: &Vec<Option<usize>>)
        ensures
            r@ == self.package_map@,
    {
        &self.package_map
    }
}

/// A core-count map with every slot unpopulated.
fn empty_package_map() -> (r: Vec<Option<usize>>)
    ensures
        r@.len() == MAX_PACKAGES,
        forall|j: int| 0 <= j < MAX_PACKAGES ==> (#[trigger] r@[j]) is None,
{
    let mut v: Vec<Option<usize>> = Vec::new();
    let mut k: usize = 0;
    while k < MAX_PACKAGES
        invariant
            k <= MAX_PACKAGES,
            v@.len() == k,
            forall|j: int| 0 <= j < k ==> (#[trigger] v@[j]) is None,
        decreases MAX_PACKAGES - k,
    {
        v.push(None);
        k = k + 1;
    }
    v
}

impl Default for PackageInfo {
    /// An empty topology: SMT off, all counts zero, no populated map slot.
    fn default() -> (r: Self)
        ensures
            r.smt == false,
            r.threads == 0,
            r.cores == 0,
            r.packages == 0,
            r.package_map@.len() == MAX_PACKAGES,
            forall|j: int| 0 <= j < MAX_PACKAGES ==> (#[trigger] r.package_map@[j]) is None,
            r.wf(),
    {
        let map = empty_package_map();
        proof {
            lemma_count_some_all_none(map_as_ints(map@));
        }
        PackageInfo { smt: false, threads: 0, cores: 0, packages: 0, package_map: map }
    }
}

/// What parsing a package-id file yields: a text-decoding error on invalid
/// UTF-8, the digits' value when the trailing-whitespace-trimmed content is a
/// nonempty digit string whose value fits in `usize`, and a parse error
/// otherwise.
pub open spec fn parse_spec(s: Seq<u8>) -> Result<int, RaplError> {
    if !valid_utf8(s) {
        Err(RaplError::Utf8)
    } else {
        let t = trim_end(s);
        if t.len() == 0 || !all_digits(t) {
            Err(RaplError::Parse)
        } else if digits_value(t) > usize::MAX {
            Err(RaplError::Parse)
        } else {
            Ok(digits_value(t))
        }
    }
}

/// Parses the content of a package-id file: a decimal unsigned integer, with
/// trailing ASCII whitespace permitted.
pub fn parse_package_id(content: &Vec<u8>) -> (r: Result<usize, RaplError>)
    ensures
        match r {
            Ok(v) => parse_spec(content@) == Ok::<int, RaplError>(v as int),
            Err(e) => parse_spec(content@) == Err::<int, RaplError>(e),
        },
{
    if !is_valid_utf8(content) {
        return Err(RaplError::Utf8);
    }
    let r = parse_decimal(content);
    proof {
        let t = trim_end(content@);
        if t.len() > 0 && all_digits(t) {
            crate::parse::lemma_digits_value_nonneg(t);
        }
    }
    match r {
        Some(v) => Ok(v),
        None => Err(RaplError::Parse),
    }
}

/// The package ids read during detection, CPU by CPU, or the first failure:
/// a parse failure of a file, or a package id with no slot in the map.
pub open spec fn detect_ids(cs: Seq<Seq<u8>>) -> Result<Seq<int>, RaplError>
    decreases cs.len(),
{
    if cs.len() == 0 {
        Ok(Seq::empty())
    } else {
        match detect_ids(cs.drop_last()) {
            Err(e) => Err(e),
            Ok(ids) => match parse_spec(cs.last()) {
                Err(e) => Err(e),
                Ok(p) => if p >= MAX_PACKAGES {
                    Err(RaplError::Capacity)
                } else {
                    Ok(ids.push(p))
                },
            },
        }
    }
}

/// A failure among the first `i` files decides the whole detection.
proof fn lemma_detect_ids_err(cs: Seq<Seq<u8>>, i: int)
    requires
        0 <= i <= cs.len(),
        detect_ids(cs.take(i)) is Err,
    ensures
        detect_ids(cs) == detect_ids(cs.take(i)),
    decreases cs.len(),
{
    if i < cs.len() {
        assert(cs.take(i) =~= cs.drop_last().take(i));
        lemma_detect_ids_err(cs.drop_last(), i);
    } else {
        assert(cs.take(i) =~= cs);
    }
}

/// Detects the CPU topology from the SMT state and the raw contents of the
/// enumerated CPUs' package-id files, indexed by logical CPU id.
///
/// Design assumption, preserved deliberately: all logical CPUs of one package
/// are assumed to be enumerated contiguously, in ascending CPU-id order,
/// before any CPU of another package appears.  The running per-package core
/// counter restarts only when a package id is seen for the first time, so an
/// interleaved enumeration leaves a wrong core count in the map slot of at
/// least one package.
pub fn detect_packages(smt: bool, contents: &Vec<Vec<u8>>) -> (r: Result<PackageInfo, RaplError>)
    requires
        contents@.len() <= MAX_CPUS,
    ensures
        match r {
            Ok(info) => {
                &&& detect_ids(contents.deep_view()) matches Ok(ids) && info.matches_model(
                    smt,
                    ids,
                )
                &&& info.wf()
            },
            Err(e) => detect_ids(contents.deep_view()) == Err::<Seq<int>, RaplError>(e),
        },
{
    let ghost cs = contents.deep_view();
    let n = contents.len();
    let mut map = empty_package_map();
    let mut threads: usize = 0;
    let mut packages: usize = 0;
    let mut run: usize = 0;
    let ghost mut ids: Seq<int> = Seq::empty();
    proof {
        assert(map_as_ints(map@) =~= topo_init().map);
    }
    let mut i: usize = 0;
    while i < n
        invariant
            n == contents@.len(),
            n <= MAX_CPUS,
            cs == contents.deep_view(),
            i <= n,
            threads == i,
            packages <= i,
            run <= i,
            map@.len() == MAX_PACKAGES,
            detect_ids(cs.take(i as int)) == Ok::<Seq<int>, RaplError>(ids),
            ids.len() == i,
            forall|j: int| 0 <= j < ids.len() ==> 0 <= #[trigger] ids[j] < MAX_PACKAGES,
            topo_fold(smt, ids) == (TopoState {
                threads: threads as int,
                packages: packages as int,
                map: map_as_ints(map@),
                run: run as int,
            }),
        decreases n - i,
    {
        let content: &Vec<u8> = &contents[i];
        proof {
            assert(cs[i as int] =~= content@);
            assert(cs.take(i + 1).drop_last() =~= cs.take(i as int));
            assert(cs.take(i + 1).last() == cs[i as int]);
        }
        match parse_package_id(content) {
            Err(e) => {
                proof {
                    assert(detect_ids(cs.take(i + 1)) == Err::<Seq<int>, RaplError>(e));
                    lemma_detect_ids_err(cs, i + 1);
                }
                return Err(e);
            },
            Ok(p) => {
                if p >= MAX_PACKAGES {
                    proof {
                        assert(detect_ids(cs.take(i + 1)) == Err::<Seq<int>, RaplError>(
                            RaplError::Capacity,
                        ));
                        lemma_detect_ids_err(cs, i + 1);
                    }
                    return Err(RaplError::Capacity);
                }
                let ghost old_ids = ids;
                let ghost old_state = (TopoState {
                    threads: threads as int,
                    packages: packages as int,
                    map: map_as_ints(map@),
                    run: run as int,
                });
                threads = threads + 1;
                if map[p].is_none() {
                    packages = packages + 1;
                    run = 1;
                } else {
                    run = run + 1;
                }
                let entry = if smt {
                    run / 2
                } else {
                    run
                };
                map.set(p, Some(entry));
                proof {
                    ids = ids.push(p as int);
                    assert(detect_ids(cs.take(i + 1)) == Ok::<Seq<int>, RaplError>(ids));
                    assert(ids.drop_last() =~= old_ids);
                    assert(ids.last() == p as int);
                    assert(map_as_ints(map@) =~= old_state.map.update(p as int, Some(entry as int)));
                    assert(topo_fold(smt, ids) == topo_step(old_state, smt, p as int));
                }
                i = i + 1;
            },
        }
    }
    proof {
        assert(cs.take(n as int) =~= cs);
        lemma_topo_fold_wf(smt, ids);
    }
    let cores = if smt {
        threads / 2
    } else {
        threads
    };
    Ok(PackageInfo { smt, threads, cores, packages, package_map: map })
}

/// All CPUs of one package stand together: between two occurrences of a
/// package id no other id appears.  This is the detector's documented
/// enumeration assumption.
pub open spec fn grouped(ids: Seq<int>) -> bool {
    forall|i: int, j: int, k: int|
        #![trigger ids[i], ids[j], ids[k]]
        0 <= i < j < k < ids.len() && ids[i] == ids[k] ==> ids[j] == ids[i]
}

/// How many enumerated CPUs report package id `q`.
pub open spec fn count_of(ids: Seq<int>, q: int) -> int
    decreases ids.len(),
{
    if ids.len() == 0 {
        0
    } else {
        count_of(ids.drop_last(), q) + (if ids.last() == q {
            1int
        } else {
            0int
        })
    }
}

proof fn lemma_count_of_zero(ids: Seq<int>, q: int)
    ensures
        count_of(ids, q) == 0 <==> !ids.contains(q),
        count_of(ids, q) >= 0,
    decreases ids.len(),
{
    if ids.len() > 0 {
        lemma_count_of_zero(ids.drop_last(), q);
        if ids.drop_last().contains(q) {
            let w = choose|w: int| 0 <= w < ids.drop_last().len() && ids.drop_last()[w] == q;
            assert(ids[w] == q);
        }
        if ids.contains(q) && ids.last() != q {
            let w = choose|w: int| 0 <= w < ids.len() && ids[w] == q;
            assert(ids.drop_last()[w] == q);
        }
    }
}

/// Under the contiguous-enumeration assumption the detector's map holds, for
/// every package id that was seen, that package's CPU count — halved when
/// SMT is on.  With an interleaved enumeration this does not hold; the
/// assumption is preserved deliberately, not repaired.
pub proof fn lemma_grouped_core_counts(smt: bool, ids: Seq<int>)
    requires
        forall|j: int| 0 <= j < ids.len() ==> 0 <= #[trigger] ids[j] < MAX_PACKAGES,
        grouped(ids),
    ensures
        forall|q: int|
            ids.contains(q) ==> topo_fold(smt, ids).map[q] == Some(
                if smt {
                    count_of(ids, q) / 2
                } else {
                    count_of(ids, q)
                },
            ),
        ids.len() > 0 ==> topo_fold(smt, ids).run == count_of(ids, ids.last()),
    decreases ids.len(),
{
    if ids.len() > 0 {
        let prefix = ids.drop_last();
        let p = ids.last();
        assert(forall|j: int| 0 <= j < prefix.len() ==> 0 <= #[trigger] prefix[j] < MAX_PACKAGES);
        assert(grouped(prefix)) by {
            assert forall|i: int, j: int, k: int|
                #![trigger prefix[i], prefix[j], prefix[k]]
                0 <= i < j < k < prefix.len() && prefix[i] == prefix[k] implies prefix[j]
                == prefix[i] by {
                assert(ids[i] == prefix[i] && ids[j] == prefix[j] && ids[k] == prefix[k]);
            }
        }
        lemma_grouped_core_counts(smt, prefix);
        lemma_topo_fold_wf(smt, prefix);
        let prev = topo_fold(smt, prefix);
        let m = topo_fold(smt, ids);
        assert(ids[ids.len() - 1] == p);
        lemma_count_of_zero(prefix, p);
        if prev.map[p] is Some {
            // The id was seen before; grouping forces the previous CPU to
            // report it too, so the running counter already counts it.
            assert(prefix.contains(p));
            let w = choose|w: int| 0 <= w < prefix.len() && prefix[w] == p;
            assert(prefix.last() == p) by {
                if w < prefix.len() - 1 {
                    assert(ids[w] == p && ids[ids.len() - 1] == p);
                    assert(ids[prefix.len() - 1] == ids[w]);
                }
            }
            assert(prev.run == count_of(prefix, p));
            assert(count_of(ids, p) == count_of(prefix, p) + 1);
        } else {
            assert(!prefix.contains(p));
            assert(count_of(ids, p) == 1);
        }
        assert forall|q: int|
            ids.contains(q) implies m.map[q] == Some(
            if smt {
                count_of(ids, q) / 2
            } else {
                count_of(ids, q)
            },
        ) by {
            if q == p {
            } else {
                let w = choose|w: int| 0 <= w < ids.len() && ids[w] == q;
                assert(w < ids.len() - 1);
                assert(prefix[w] == q);
                assert(prefix.contains(q));
                assert(m.map[q] == prev.map[q]);
                lemma_count_of_zero(prefix, q);
                assert(count_of(ids, q) == count_of(prefix, q));
            }
        }
    }
}

/// Reads the SMT status from the status file's content: the ASCII character
/// `'1'` as first byte means SMT is active, any other first byte means
/// inactive, and an empty file is a detection error, never a default.
pub fn check_smt(content: &Vec<u8>) -> (r: Result<bool, RaplError>)
    ensures
        content@.len() == 0 ==> r == Err::<bool, RaplError>(RaplError::SmtCheck),
        content@.len() > 0 ==> r == Ok::<bool, RaplError>(content@[0] == 49),
{
    if content.len() == 0 {
        Err(RaplError::SmtCheck)
    } else {
        Ok(content[0] == 49)
    }
}

/// The little-endian unsigned value of the 8 bytes of a register read.
pub open spec fn spec_register_value(s: Seq<u8>) -> int {
    s[0] + s[1] * 0x100 + s[2] * 0x1_0000 + s[3] * 0x100_0000 + s[4] * 0x1_0000_0000 + s[5]
        * 0x100_0000_0000 + s[6] * 0x1_0000_0000_0000 + s[7] * 0x100_0000_0000_0000
}

/// Decodes the 8 bytes returned by a positioned register read as a
/// little-endian unsigned 64-bit integer.
pub fn register_value(bytes: &Vec<u8>) -> (v: u64)
    requires
        bytes@.len() == 8,
    ensures
        v == spec_register_value(bytes@),
{
    let b0 = bytes[0] as u64;
    let b1 = bytes[1] as u64;
    let b2 = bytes[2] as u64;
    let b3 = bytes[3] as u64;
    let b4 = bytes[4] as u64;
    let b5 = bytes[5] as u64;
    let b6 = bytes[6] as u64;
    let b7 = bytes[7] as u64;
    let v = b0 | (b1 << 8) | (b2 << 16) | (b3 << 24) | (b4 << 32) | (b5 << 40) | (b6 << 48) | (b7
        << 56);
    proof {
        assert(b0 | (b1 << 8u64) | (b2 << 16u64) | (b3 << 24u64) | (b4 << 32u64) | (b5 << 40u64)
            | (b6 << 48u64) | (b7 << 56u64) == b0 + b1 * 0x100 + b2 * 0x1_0000 + b3 * 0x100_0000
            + b4 * 0x1_0000_0000 + b5 * 0x100_0000_0000 + b6 * 0x1_0000_0000_0000 + b7
            * 0x100_0000_0000_0000) by (bit_vector)
            requires
                b0 < 0x100,
                b1 < 0x100,
                b2 < 0x100,
                b3 < 0x100,
                b4 < 0x100,
                b5 < 0x100,
                b6 < 0x100,
                b7 < 0x100,
        ;
    }
    v
}

/// The 5-bit energy-scaling exponent held in the unit-descriptor register.
pub open spec fn spec_energy_exponent(unit: u64) -> u64 {
    (unit & 0x1F00) >> 8
}

/// Extracts the energy-scaling exponent, bits 8 to 12 of the unit-descriptor
/// register value.
pub fn energy_exponent(unit: u64) -> (e: u64)
    ensures
        e == spec_energy_exponent(unit),
        e < 32,
{
    let m = AmdUnitMasks::Energy.mask();
    let s = AmdUnitMasks::Energy.shift();
    proof {
        assert((unit & 0x1F00u64) >> 8u64 < 32) by (bit_vector);
    }
    (unit & m) >> s
}

/// The denominator of the energy multiplier.  The multiplier is exactly
/// `2^(-e)` for the extracted exponent `e`, so the returned denominator is
/// `2^e` and the multiplier is its exact reciprocal.
pub fn energy_multiplier_denom(unit: u64) -> (d: u64)
    ensures
        d == pow2(spec_energy_exponent(unit) as nat),
        d >= 1,
{
    let e = energy_exponent(unit);
    proof {
        lemma2_to64();
        if (e as nat) < 31 {
            lemma_pow2_strictly_increases(e as nat, 31);
        }
        lemma_u64_shl_is_mul(1u64, e);
    }
    1u64 << e
}

/// The power drawn over the sampling interval, in multiplier-scaled units:
/// the raw energy delta times ten, ten being the reciprocal of the 100 ms
/// interval expressed in seconds.  The value in watts is this figure divided
/// by the energy-multiplier denominator.
///
/// Hardware energy accumulators are finite counters and can wrap around
/// between the two snapshots; a wrapped pair yields a negative figure.  That
/// gap is documented and deliberately not detected or corrected here.
pub fn power_units(t0: u64, t1: u64) -> (p: i128)
    ensures
        p == (t1 - t0) * 10,
{
    (t1 as i128 - t0 as i128) * 10
}

/// The per-core powers of one package in scaled units, from the two snapshot
/// passes over its per-core energy accumulators: `t0s[j]` and `t1s[j]` are
/// the first and second raw reads for the package's `j`-th core.
pub fn package_core_units(t0s: &Vec<u64>, t1s: &Vec<u64>) -> (r: Vec<i128>)
    requires
        t0s@.len() == t1s@.len(),
    ensures
        r@.len() == t0s@.len(),
        forall|j: int| 0 <= j < r@.len() ==> r@[j] == (t1s@[j] - t0s@[j]) * 10,
{
    let n = t0s.len();
    let mut r: Vec<i128> = Vec::new();
    let mut j: usize = 0;
    while j < n
        invariant
            n == t0s@.len() == t1s@.len(),
            j <= n,
            r@.len() == j,
            forall|k: int| 0 <= k < j ==> r@[k] == (t1s@[k] - t0s@[k]) * 10,
        decreases n - j,
    {
        let p = power_units(t0s[j], t1s[j]);
        r.push(p);
        j = j + 1;
    }
    r
}

/// The per-package core counts of the populated map slots, in ascending
/// package-id order.
pub open spec fn core_counts(m: Seq<Option<usize>>) -> Seq<int>
    decreases m.len(),
{
    if m.len() == 0 {
        Seq::empty()
    } else {
        match m.last() {
            Some(c) => core_counts(m.drop_last()).push(c as int),
            None => core_counts(m.drop_last()),
        }
    }
}

/// The sum of a sequence of integers.
pub open spec fn sum_seq(s: Seq<int>) -> int
    decreases s.len(),
{
    if s.len() == 0 {
        0
    } else {
        sum_seq(s.drop_last()) + s.last()
    }
}

/// There are as many per-package core counts as populated map slots.
pub proof fn lemma_core_counts_len(m: Seq<Option<usize>>)
    ensures
        core_counts(m).len() == count_some(map_as_ints(m)),
    decreases m.len(),
{
    if m.len() > 0 {
        assert(map_as_ints(m).drop_last() =~= map_as_ints(m.drop_last()));
        assert(map_as_ints(m).last() == map_as_ints(m)[m.len() - 1]);
        lemma_core_counts_len(m.drop_last());
    }
}

proof fn lemma_core_counts_bounded(m: Seq<Option<usize>>, b: int)
    requires
        forall|q: int| 0 <= q < m.len() ==> ((#[trigger] m[q]) matches Some(c) ==> 0 <= c <= b),
    ensures
        forall|k: int| 0 <= k < core_counts(m).len() ==> 0 <= #[trigger] core_counts(m)[k] <= b,
    decreases m.len(),
{
    if m.len() > 0 {
        let rest = m.drop_last();
        assert(forall|q: int|
            0 <= q < rest.len() ==> ((#[trigger] rest[q]) matches Some(c) ==> 0 <= c <= b));
        lemma_core_counts_bounded(rest, b);
        assert(m.last() == m[m.len() - 1]);
        assert forall|k: int| 0 <= k < core_counts(m).len() implies 0 <= #[trigger] core_counts(
            m,
        )[k] <= b by {
            match m.last() {
                Some(c) => {
                    assert(core_counts(m) == core_counts(rest).push(c as int));
                    if k < core_counts(rest).len() {
                        assert(core_counts(m)[k] == core_counts(rest)[k]);
                    } else {
                        assert(core_counts(m)[k] == c as int);
                    }
                },
                None => {
                    assert(core_counts(m) == core_counts(rest));
                },
            }
        }
    }
}

/// The logical-CPU ranges to sample, one per populated package slot, in
/// ascending package-id order: the starting logical-CPU offset and the core
/// count of the package.  Each package's range starts where the previous
/// one's logical CPUs end; with SMT active every physical core accounts for
/// two logical CPUs, so offsets advance by twice the core count.
pub fn sample_ranges(info: &PackageInfo) -> (r: Vec<(usize, usize)>)
    requires
        info.wf(),
    ensures
        r@.len() == core_counts(info.package_map@).len(),
        r@.len() == info.packages,
        forall|k: int|
            0 <= k < r@.len() ==> {
                &&& (#[trigger] r@[k]).1 == core_counts(info.package_map@)[k]
                &&& r@[k].0 == (if info.smt {
                    2int
                } else {
                    1int
                }) * sum_seq(core_counts(info.package_map@).take(k))
            },
{
    let ghost whole = core_counts(info.package_map@);
    let mult: usize = if info.smt {
        2
    } else {
        1
    };
    let mut r: Vec<(usize, usize)> = Vec::new();
    let mut offset: usize = 0;
    let mut j: usize = 0;
    proof {
        assert forall|q: int|
            0 <= q < info.package_map@.len() implies ((#[trigger] info.package_map@[q]) matches Some(
            c,
        ) ==> 0 <= c <= MAX_CPUS) by {
            assert(info.map_ints()[q] == (match info.package_map@[q] {
                Some(c) => Some(c as int),
                None => None,
            }));
        }
        lemma_core_counts_bounded(info.package_map@, MAX_CPUS as int);
    }
    while j < MAX_PACKAGES
        invariant
            info.wf(),
            j <= MAX_PACKAGES,
            mult == (if info.smt {
                2int
            } else {
                1int
            }),
            forall|k: int|
                0 <= k < core_counts(info.package_map@.take(j as int)).len() ==> 0 <= #[trigger] core_counts(
                    info.package_map@.take(j as int),
                )[k] <= MAX_CPUS,
            r@.len() == core_counts(info.package_map@.take(j as int)).len(),
            r@.len() <= j,
            forall|k: int|
                0 <= k < r@.len() ==> {
                    &&& (#[trigger] r@[k]).1 == core_counts(info.package_map@.take(j as int))[k]
                    &&& r@[k].0 == mult * sum_seq(
                        core_counts(info.package_map@.take(j as int)).take(k),
                    )
                },
            offset == mult * sum_seq(core_counts(info.package_map@.take(j as int))),
            0 <= sum_seq(core_counts(info.package_map@.take(j as int))),
            sum_seq(core_counts(info.package_map@.take(j as int))) <= j * (MAX_CPUS as int),
        decreases MAX_PACKAGES - j,
    {
        let ghost counts = core_counts(info.package_map@.take(j as int));
        proof {
            assert(info.package_map@.take(j + 1).drop_last() =~= info.package_map@.take(j as int));
            assert(info.package_map@.take(j + 1).last() == info.package_map@[j as int]);
        }
        let ghost counts2 = core_counts(info.package_map@.take(j + 1));
        match info.package_map[j] {
            Some(c) => {
                proof {
                    assert(info.map_ints()[j as int] matches Some(ci) && ci == c as int);
                    assert(c <= info.threads);
                    assert(counts2 =~= counts.push(c as int));
                    assert(counts2.drop_last() =~= counts);
                    assert(sum_seq(counts2) == sum_seq(counts) + c);
                    assert forall|k: int| 0 <= k <= counts.len() implies counts2.take(k)
                        =~= counts.take(k) by {}
                    assert(counts2.take(counts.len() as int) =~= counts);
                }
                r.push((offset, c));
                offset = offset + mult * c;
            },
            None => {
                proof {
                    assert(counts2 =~= counts);
                }
            },
        }
        j = j + 1;
    }
    proof {
        assert(info.package_map@.take(MAX_PACKAGES as int) =~= info.package_map@);
        lemma_core_counts_len(info.package_map@);
    }
    r
}

/// The sum of a sequence of scaled power figures.
pub open spec fn sum_units_of(s: Seq<i128>) -> int
    decreases s.len(),
{
    if s.len() == 0 {
        0
    } else {
        sum_units_of(s.drop_last()) + s.last()
    }
}

/// Largest magnitude of a single scaled power figure: the raw energy delta
/// spans at most the full register range, times the ten of the interval.
pub const UNIT_BOUND: i128 = 10 * (u64::MAX as i128);

/// Flattens the per-package core-power lists, in package-ascending order,
/// preserving intra-package core order, into one flat sequence.
pub fn flatten_core_powers(lists: &Vec<Vec<i128>>) -> (r: Vec<i128>)
    ensures
        r@ == lists.deep_view().flatten(),
{
    let ghost dv = lists.deep_view();
    let n = lists.len();
    let mut r: Vec<i128> = Vec::new();
    let mut i: usize = 0;
    proof {
        assert(dv.take(0).flatten() =~= Seq::<i128>::empty());
    }
    while i < n
        invariant
            n == lists@.len(),
            dv == lists.deep_view(),
            i <= n,
            r@ == dv.take(i as int).flatten(),
        decreases n - i,
    {
        let inner: &Vec<i128> = &lists[i];
        proof {
            assert(dv[i as int] =~= inner@);
        }
        let m = inner.len();
        let mut j: usize = 0;
        proof {
            assert(r@ =~= dv.take(i as int).flatten() + inner@.take(0));
        }
        while j < m
            invariant
                n == lists@.len(),
                dv == lists.deep_view(),
                i < n,
                m == inner@.len(),
                j <= m,
                r@ == dv.take(i as int).flatten() + inner@.take(j as int),
            decreases m - j,
        {
            r.push(inner[j]);
            proof {
                assert(inner@.take(j + 1) =~= inner@.take(j as int).push(inner@[j as int]));
                assert(r@ =~= dv.take(i as int).flatten() + inner@.take(j + 1));
            }
            j = j + 1;
        }
        proof {
            assert(inner@.take(m as int) =~= inner@);
            dv.take(i as int).lemma_flatten_push(inner@);
            assert(dv.take(i + 1) =~= dv.take(i as int).push(dv[i as int]));
            assert(dv[i as int] == inner@);
            assert(r@ =~= dv.take(i + 1).flatten());
        }
        i = i + 1;
    }
    proof {
        assert(dv.take(n as int) =~= dv);
    }
    r
}

/// Sums scaled power figures, as the report's core and package power sums.
pub fn sum_units(v: &Vec<i128>) -> (s: i128)
    requires
        v@.len() <= MAX_CPUS * MAX_PACKAGES,
        forall|k: int| 0 <= k < v@.len() ==> -UNIT_BOUND <= #[trigger] v@[k] <= UNIT_BOUND,
    ensures
        s == sum_units_of(v@),
{
    let n = v.len();
    let mut s: i128 = 0;
    let mut i: usize = 0;
    proof {
        assert(UNIT_BOUND == 184467440737095516150);
    }
    while i < n
        invariant
            UNIT_BOUND == 184467440737095516150,
            n == v@.len() <= MAX_CPUS * MAX_PACKAGES,
            forall|k: int| 0 <= k < v@.len() ==> -UNIT_BOUND <= #[trigger] v@[k] <= UNIT_BOUND,
            i <= n,
            s == sum_units_of(v@.take(i as int)),
            -(i as int) * UNIT_BOUND <= s <= (i as int) * UNIT_BOUND,
        decreases n - i,
    {
        proof {
            assert(v@.take(i + 1).drop_last() =~= v@.take(i as int));
            assert(v@.take(i + 1).last() == v@[i as int]);
            assert(((i as int) + 1) * UNIT_BOUND == (i as int) * UNIT_BOUND + UNIT_BOUND)
                by (nonlinear_arith);
            assert(((i as int) + 1) * UNIT_BOUND <= 16384 * UNIT_BOUND) by (nonlinear_arith)
                requires
                    (i as int) + 1 <= 16384,
                    0 <= UNIT_BOUND,
            ;
        }
        s = s + v[i];
        i = i + 1;
    }
    proof {
        assert(v@.take(n as int) =~= v@);
    }
    s
}

proof fn lemma_flatten_len_is_sum(lists: Seq<Seq<i128>>, counts: Seq<int>)
    requires
        lists.len() == counts.len(),
        forall|k: int| 0 <= k < lists.len() ==> (#[trigger] lists[k]).len() == counts[k],
    ensures
        lists.flatten().len() == sum_seq(counts),
    decreases lists.len(),
{
    lists.lemma_flatten_and_flatten_alt_are_equivalent();
    if lists.len() > 0 {
        assert(forall|k: int|
            0 <= k < lists.drop_last().len() ==> (#[trigger] lists.drop_last()[k]).len()
                == counts.drop_last()[k]);
        lemma_flatten_len_is_sum(lists.drop_last(), counts.drop_last());
        lists.drop_last().lemma_flatten_and_flatten_alt_are_equivalent();
        assert(lists.last().len() == counts[lists.len() - 1]);
    }
}

/// The sum of the populated map entries.
pub open spec fn sum_entries(m: Seq<Option<int>>) -> int
    decreases m.len(),
{
    if m.len() == 0 {
        0
    } else {
        sum_entries(m.drop_last()) + (match m.last() {
            Some(c) => c,
            None => 0,
        })
    }
}

proof fn lemma_sum_entries_update(m: Seq<Option<int>>, p: int, v: int)
    requires
        0 <= p < m.len(),
    ensures
        sum_entries(m.update(p, Some(v))) == sum_entries(m) + v - (match m[p] {
            Some(c) => c,
            None => 0,
        }),
    decreases m.len(),
{
    let m2 = m.update(p, Some(v));
    if p == m.len() - 1 {
        assert(m2.drop_last() =~= m.drop_last());
        assert(m2.last() == Some(v));
    } else {
        assert(m2.drop_last() =~= m.drop_last().update(p, Some(v)));
        lemma_sum_entries_update(m.drop_last(), p, v);
        assert(m2.last() == m.last());
        assert(m.drop_last()[p] == m[p]);
    }
}

/// The per-package core counts add up to the populated entries' sum.
proof fn lemma_core_counts_sum(m: Seq<Option<usize>>)
    ensures
        sum_seq(core_counts(m)) == sum_entries(map_as_ints(m)),
    decreases m.len(),
{
    if m.len() > 0 {
        assert(map_as_ints(m).drop_last() =~= map_as_ints(m.drop_last()));
        assert(map_as_ints(m).last() == map_as_ints(m)[m.len() - 1]);
        lemma_core_counts_sum(m.drop_last());
        match m.last() {
            Some(c) => {
                assert(core_counts(m) == core_counts(m.drop_last()).push(c as int));
                assert(core_counts(m).drop_last() =~= core_counts(m.drop_last()));
            },
            None => {},
        }
    }
}

/// With a contiguous enumeration and SMT off, the map entries add up to the
/// thread count: every CPU is counted in exactly one package's entry.
proof fn lemma_grouped_sum_smt_off(ids: Seq<int>)
    requires
        forall|j: int| 0 <= j < ids.len() ==> 0 <= #[trigger] ids[j] < MAX_PACKAGES,
        grouped(ids),
    ensures
        sum_entries(topo_fold(false, ids).map) == ids.len(),
    decreases ids.len(),
{
    if ids.len() == 0 {
        lemma_sum_entries_all_none(topo_init().map);
    } else {
        let prefix = ids.drop_last();
        let p = ids.last();
        assert(forall|j: int| 0 <= j < prefix.len() ==> 0 <= #[trigger] prefix[j] < MAX_PACKAGES);
        assert(grouped(prefix)) by {
            assert forall|i: int, j: int, k: int|
                #![trigger prefix[i], prefix[j], prefix[k]]
                0 <= i < j < k < prefix.len() && prefix[i] == prefix[k] implies prefix[j]
                == prefix[i] by {
                assert(ids[i] == prefix[i] && ids[j] == prefix[j] && ids[k] == prefix[k]);
            }
        }
        lemma_grouped_sum_smt_off(prefix);
        lemma_grouped_core_counts(false, prefix);
        lemma_topo_fold_wf(false, prefix);
        let prev = topo_fold(false, prefix);
        assert(ids[ids.len() - 1] == p);
        let run2 = if prev.map[p] is None {
            1int
        } else {
            prev.run + 1
        };
        lemma_sum_entries_update(prev.map, p, run2);
        if prev.map[p] is Some {
            // The id was seen before; grouping makes the previous CPU report
            // it too, so the old entry is exactly the running counter.
            assert(prefix.contains(p));
            let w = choose|w: int| 0 <= w < prefix.len() && prefix[w] == p;
            assert(prefix.last() == p) by {
                if w < prefix.len() - 1 {
                    assert(ids[w] == p && ids[ids.len() - 1] == p);
                    assert(ids[prefix.len() - 1] == ids[w]);
                }
            }
            assert(prev.run == count_of(prefix, p));
            assert(prev.map[p] == Some(count_of(prefix, p)));
        }
    }
}

proof fn lemma_sum_entries_all_none(m: Seq<Option<int>>)
    requires
        forall|j: int| 0 <= j < m.len() ==> (#[trigger] m[j]) is None,
    ensures
        sum_entries(m) == 0,
    decreases m.len(),
{
    if m.len() > 0 {
        lemma_sum_entries_all_none(m.drop_last());
    }
}

/// With a contiguous enumeration and SMT off, the per-package core counts
/// cover the detected core count exactly.  This discharges the hypothesis of
/// the report-lengths law for such topologies; with SMT on it can fail when
/// a package holds an odd number of logical CPUs.
pub proof fn lemma_grouped_counts_cover_cores(info: PackageInfo, ids: Seq<int>)
    requires
        forall|j: int| 0 <= j < ids.len() ==> 0 <= #[trigger] ids[j] < MAX_PACKAGES,
        grouped(ids),
        info.matches_model(false, ids),
    ensures
        sum_seq(core_counts(info.package_map@)) == info.cores,
{
    lemma_grouped_sum_smt_off(ids);
    lemma_core_counts_sum(info.package_map@);
    lemma_topo_fold_wf(false, ids);
}

/// For every successfully built report, the core-power sequence has one
/// entry per physical core and the package-power sequence one entry per
/// package.  The per-package lists must each be as long as that package's
/// core count, and those counts must add up to the detected core count; the
/// latter holds of a contiguously enumerated topology whose packages all
/// have an even logical-CPU count when SMT is on, and is not implied by
/// well-formedness alone.
pub proof fn lemma_report_lengths(info: PackageInfo, lists: Seq<Seq<i128>>)
    requires
        info.wf(),
        lists.len() == core_counts(info.package_map@).len(),
        forall|k: int|
            0 <= k < lists.len() ==> (#[trigger] lists[k]).len() == core_counts(
                info.package_map@,
            )[k],
        sum_seq(core_counts(info.package_map@)) == info.cores,
    ensures
        lists.flatten().len() == info.cores,
        core_counts(info.package_map@).len() == info.packages,
{
    lemma_flatten_len_is_sum(lists, core_counts(info.package_map@));
    lemma_core_counts_len(info.package_map@);
}

} // verus!
