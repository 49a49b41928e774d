//! The bundler: a name-keyed registry of source modules, dependency
//! discovery over a supplied file list, a fixed-point topological
//! sorter with an explicit cycle report, and emission of the single
//! self-executing artifact.

use vstd::prelude::*;
use vstd::string::StrSliceExecFns;
use vstd::string::StringExecFns;
use crate::bundler::code_src_file::CodeSrcFile;
use crate::bundler::code_src_file::import_at;
use crate::bundler::code_src_file::lemma_import_end;
use crate::bundler::code_src_file::spec_import_at;
use crate::bundler::code_src_file::spec_import_end;
use crate::bundler::code_src_file::spec_import_name;
use crate::bundler::code_src_file::spec_requires_from;
use crate::text::push_char;
use crate::text::str_eq;

verus! {

/// Fatal bundling failures.  Unresolved dependency names are not here:
/// they are non-fatal and recorded in `LuaBundler::unresolved`.
#[derive(Debug)]
pub enum BundleError {
    /// The entry file is not among the supplied files.
    EntryUnreadable,
    /// The registry holds an import cycle; the named modules each
    /// require another member of the set.
    Cycle(Vec<String>),
}

/// True when some registry entry is keyed by `name`.
pub open spec fn has_key(reg: Seq<(String, CodeSrcFile)>, name: Seq<char>) -> bool {
    exists|k: int| 0 <= k < reg.len() && reg[k].0@ == name
}

/// Registry keys are pairwise distinct.
pub open spec fn keys_unique(reg: Seq<(String, CodeSrcFile)>) -> bool {
    forall|a: int, b: int| 0 <= a < b < reg.len() ==> reg[a].0@ != reg[b].0@
}

/// Some entry of `emitted` names a module keyed by `name`.
pub open spec fn emitted_has(reg: Seq<(String, CodeSrcFile)>, emitted: Seq<usize>, name: Seq<char>) -> bool {
    exists|b: int| 0 <= b < emitted.len() && (emitted[b] as int) < reg.len() && reg[emitted[b] as int].0@
        == name
}

/// Every required name of module `m` that is a registry key is already
/// listed in `emitted`.
pub open spec fn spec_deps_ok(reg: Seq<(String, CodeSrcFile)>, m: int, emitted: Seq<usize>) -> bool {
    forall|d: int|
        0 <= d < reg[m].1.requires@.len() && has_key(reg, #[trigger] reg[m].1.requires@[d]@)
            ==> emitted_has(reg, emitted, reg[m].1.requires@[d]@)
}

/// The ordering property: for every position of `order`, every
/// registry-key require of the module there is placed strictly before.
pub open spec fn topo_ok(reg: Seq<(String, CodeSrcFile)>, order: Seq<usize>) -> bool {
    forall|a: int| 0 <= a < order.len() ==> spec_deps_ok(
        reg,
        #[trigger] order[a] as int,
        order.take(a),
    )
}

/// All entries of `order` are registry positions.
pub open spec fn order_in_range(reg: Seq<(String, CodeSrcFile)>, order: Seq<usize>) -> bool {
    forall|a: int| 0 <= a < order.len() ==> (#[trigger] order[a] as int) < reg.len()
}

/// `k` occurs among the indices of `o`.
pub open spec fn idx_in(o: Seq<usize>, k: int) -> bool {
    exists|j: int| 0 <= j < o.len() && o[j] as int == k
}

/// `nm` is the view of some name of `names`.
pub open spec fn name_in(names: Seq<String>, nm: Seq<char>) -> bool {
    exists|j: int| 0 <= j < names.len() && names[j]@ == nm
}

/// The stuck set of a failed sort: every member is a registry key
/// whose module has a registry-key require that is itself stuck, or
/// that is the reserved entry key (which the ordering must hold for
/// the final position).
pub open spec fn stuck_set_ok(reg: Seq<(String, CodeSrcFile)>, stuck: Seq<String>) -> bool {
    forall|x: int| 0 <= x < stuck.len() ==> has_key(reg, #[trigger] stuck[x]@) && (exists|m: int, d: int|
        0 <= m < reg.len() && reg[m].0@ == stuck[x]@ && 0 <= d < reg[m].1.requires@.len()
            && has_key(reg, reg[m].1.requires@[d]@) && (name_in(stuck, reg[m].1.requires@[d]@)
            || reg[m].1.requires@[d]@ == "entry_point"@))
}

/// Some position of `o` names the reserved entry key.
pub open spec fn has_entry_idx(reg: Seq<(String, CodeSrcFile)>, o: Seq<usize>) -> bool {
    exists|a: int| 0 <= a < o.len() && reg[o[a] as int].0@ == "entry_point"@
}

/// One pass of the fixed point, as the design states it: walk the
/// pending modules in order, emit each whose registry-key requires
/// already stand in the output, park the rest.  The reserved entry
/// key is emitted only when it is the pass's sole pending module.
/// Returns the grown output and the parked modules, in order.
pub open spec fn spec_pass(
    reg: Seq<(String, CodeSrcFile)>,
    emitted: Seq<usize>,
    pending: Seq<usize>,
    pn: int,
) -> (Seq<usize>, Seq<usize>)
    decreases pending.len(),
{
    if pending.len() == 0 {
        (emitted, Seq::empty())
    } else {
        let idx = pending[0];
        let rest = pending.drop_first();
        if spec_deps_ok(reg, idx as int, emitted) && (reg[idx as int].0@ != "entry_point"@ || pn
            == 1) {
            spec_pass(reg, emitted.push(idx), rest, pn)
        } else {
            let r = spec_pass(reg, emitted, rest, pn);
            (r.0, seq![idx] + r.1)
        }
    }
}

/// The whole fixed point: run passes until nothing is pending, or
/// report the pending modules of a pass that emitted nothing.
pub open spec fn spec_passes(
    reg: Seq<(String, CodeSrcFile)>,
    emitted: Seq<usize>,
    pending: Seq<usize>,
) -> Result<Seq<usize>, Seq<usize>>
    decreases pending.len(),
{
    if pending.len() == 0 {
        Ok(emitted)
    } else {
        let r = spec_pass(reg, emitted, pending, pending.len() as int);
        if r.1.len() < pending.len() {
            spec_passes(reg, r.0, r.1)
        } else {
            Err(r.1)
        }
    }
}

/// The order the sorter produces, as a function of the registry
/// alone: passes over the positions in registry order.  This pins the
/// result completely, ties included.
pub open spec fn spec_sorted_order(reg: Seq<(String, CodeSrcFile)>) -> Result<
    Seq<usize>,
    Seq<usize>,
> {
    spec_passes(reg, Seq::empty(), Seq::new(reg.len(), |i: int| i as usize))
}

proof fn lemma_idx_in_push(o: Seq<usize>, x: usize, k: int)
    ensures
        idx_in(o.push(x), k) <==> (idx_in(o, k) || x as int == k),
{
    if idx_in(o.push(x), k) {
        let j = choose|j: int| 0 <= j < o.push(x).len() && o.push(x)[j] as int == k;
        if j < o.len() {
            assert(o[j] as int == k);
        }
    }
    if idx_in(o, k) {
        let j = choose|j: int| 0 <= j < o.len() && o[j] as int == k;
        assert(o.push(x)[j] as int == k);
    }
    if x as int == k {
        assert(o.push(x)[o.len() as int] as int == k);
    }
}

proof fn lemma_no_dup_push(o: Seq<usize>, x: usize)
    requires
        o.no_duplicates(),
        !idx_in(o, x as int),
    ensures
        o.push(x).no_duplicates(),
{
    assert forall|a: int, b: int| 0 <= a < b < o.push(x).len() implies o.push(x)[a] != o.push(x)[b]
    by {
        if b < o.len() {
        } else {
            assert(o[a] as int != x as int);
        }
    }
}

/// The bundler: the module registry (keys unique, the entry point
/// under its reserved key) plus the recorded unresolved-dependency
/// warnings.
pub struct LuaBundler {
    pub sources: Vec<(String, CodeSrcFile)>,
    pub unresolved: Vec<String>,
}

impl LuaBundler {
    /// Registry keys are unique.
    pub open spec fn wf(&self) -> bool {
        keys_unique(self.sources@)
    }

    pub fn new() -> (r: LuaBundler)
        ensures
            r.sources@.len() == 0,
            r.unresolved@.len() == 0,
            r.wf(),
    {
        LuaBundler { sources: Vec::new(), unresolved: Vec::new() }
    }

    /// Position of the registry entry keyed by `name`.
    fn find_key(&self, name: &str) -> (r: Option<usize>)
        ensures
            match r {
                Some(k) => (k as int) < self.sources@.len() && self.sources@[k as int].0@ == name@,
                None => !has_key(self.sources@, name@),
            },
    {
        let n = self.sources.len();
        let mut k: usize = 0;
        loop
            invariant
                0 <= k <= n == self.sources@.len(),
                forall|j: int| 0 <= j < k ==> self.sources@[j].0@ != name@,
            decreases n - k,
        {
            if k >= n {
                return None;
            }
            if str_eq(self.sources[k].0.as_str(), name) {
                return Some(k);
            }
            k = k + 1;
        }
    }

    /// True when every registry-key require of module `idx` is already
    /// in `emitted`.
    fn deps_satisfied(&self, idx: usize, emitted: &Vec<usize>) -> (r: bool)
        requires
            (idx as int) < self.sources@.len(),
        ensures
            r == spec_deps_ok(self.sources@, idx as int, emitted@),
    {
        let ghost reg = self.sources@;
        let nreq = self.sources[idx].1.requires.len();
        let mut d: usize = 0;
        loop
            invariant
                reg == self.sources@,
                (idx as int) < reg.len(),
                0 <= d <= nreq == reg[idx as int].1.requires@.len(),
                forall|dd: int|
                    0 <= dd < d && has_key(reg, #[trigger] reg[idx as int].1.requires@[dd]@)
                        ==> emitted_has(reg, emitted@, reg[idx as int].1.requires@[dd]@),
            decreases nreq - d,
        {
            if d >= nreq {
                return true;
            }
            let name = &self.sources[idx].1.requires[d];
            if self.find_key(name.as_str()).is_some() {
                if !self.emitted_contains(emitted, name.as_str()) {
                    return false;
                }
            }
            d = d + 1;
        }
    }

    /// True when `emitted` lists a module keyed by `name`.
    fn emitted_contains(&self, emitted: &Vec<usize>, name: &str) -> (r: bool)
        ensures
            r == emitted_has(self.sources@, emitted@, name@),
    {
        let n = emitted.len();
        let mut b: usize = 0;
        loop
            invariant
                0 <= b <= n == emitted@.len(),
                forall|j: int| 0 <= j < b ==> !((emitted@[j] as int) < self.sources@.len()
                    && self.sources@[emitted@[j] as int].0@ == name@),
            decreases n - b,
        {
            if b >= n {
                return false;
            }
            let k = emitted[b];
            if k < self.sources.len() {
                if str_eq(self.sources[k].0.as_str(), name) {
                    return true;
                }
            }
            b = b + 1;
        }
    }

    /// Orders the registry so that every module comes after all of its
    /// registry-key requires, by repeated passes: a pass emits every
    /// still-pending module whose requires are all emitted (or
    /// external), and a pass that emits nothing reports the modules
    /// with unmet requires as an import cycle.  Ties within a pass
    /// keep registry order, so the result is deterministic; the
    /// reserved entry key is held back for a final pass of its own, so
    /// its registration block lands structurally last.
    pub fn sort_sources(&self) -> (r: Result<Vec<usize>, Vec<String>>)
        requires
            self.wf(),
        ensures
            match r {
                Ok(order) => {
                    &&& order@.len() == self.sources@.len()
                    &&& order@.no_duplicates()
                    &&& order_in_range(self.sources@, order@)
                    &&& forall|k: int| 0 <= k < self.sources@.len() ==> idx_in(order@, k)
                    &&& topo_ok(self.sources@, order@)
                    &&& (has_key(self.sources@, "entry_point"@) ==> (order@.len() > 0
                        && self.sources@[order@[order@.len() - 1] as int].0@ == "entry_point"@))
                    &&& spec_sorted_order(self.sources@) == Ok::<Seq<usize>, Seq<usize>>(order@)
                },
                Err(stuck) => stuck@.len() > 0 && stuck_set_ok(self.sources@, stuck@)
                    && spec_sorted_order(self.sources@) is Err,
            },
    {
        let ghost reg = self.sources@;
        let n = self.sources.len();
        let mut pending: Vec<usize> = Vec::new();
        let mut t: usize = 0;
        while t < n
            invariant
                reg == self.sources@,
                0 <= t <= n == reg.len(),
                pending@.len() == t,
                forall|j: int| 0 <= j < t ==> pending@[j] as int == j,
            decreases n - t,
        {
            pending.push(t);
            t = t + 1;
        }
        proof {
            assert(pending@.no_duplicates());
            assert forall|k: int| 0 <= k < n implies idx_in(pending@, k) by {
                assert(pending@[k] as int == k);
            }
            assert(pending@ =~= Seq::new(reg.len(), |i: int| i as usize));
        }
        let mut sorted: Vec<usize> = Vec::new();
        loop
            invariant
                reg == self.sources@,
                self.wf(),
                n == reg.len(),
                sorted@.len() + pending@.len() == n,
                sorted@.no_duplicates(),
                pending@.no_duplicates(),
                order_in_range(reg, sorted@),
                forall|a: int| 0 <= a < pending@.len() ==> (#[trigger] pending@[a] as int) < n,
                forall|k: int| 0 <= k < n ==> idx_in(sorted@, k) || idx_in(pending@, k),
                forall|a: int| 0 <= a < pending@.len() ==> !idx_in(
                    sorted@,
                    #[trigger] pending@[a] as int,
                ),
                topo_ok(reg, sorted@),
                has_entry_idx(reg, sorted@) ==> pending@.len() == 0,
                has_entry_idx(reg, sorted@) ==> (sorted@.len() > 0 && reg[sorted@.last() as int].0@
                    == "entry_point"@),
                spec_sorted_order(reg) == spec_passes(reg, sorted@, pending@),
            decreases pending@.len(),
        {
            if pending.len() == 0 {
                proof {
                    if has_key(reg, "entry_point"@) {
                        let ke = choose|k: int| 0 <= k < reg.len() && reg[k].0@ == "entry_point"@;
                        assert(idx_in(sorted@, ke) || idx_in(pending@, ke));
                        let a = choose|a: int| 0 <= a < sorted@.len() && sorted@[a] as int == ke;
                        assert(has_entry_idx(reg, sorted@));
                    }
                    assert(spec_passes(reg, sorted@, pending@) == Ok::<Seq<usize>, Seq<usize>>(
                        sorted@,
                    ));
                }
                return Ok(sorted);
            }
            let ghost sorted_start = sorted@;
            let pn = pending.len();
            let mut new_pending: Vec<usize> = Vec::new();
            let mut progress = false;
            let mut q: usize = 0;
            proof {
                assert(pending@.skip(0) =~= pending@);
                assert(Seq::<usize>::empty() + spec_pass(reg, sorted@, pending@, pn as int).1
                    =~= spec_pass(reg, sorted@, pending@, pn as int).1);
            }
            while q < pn
                invariant
                    reg == self.sources@,
                    self.wf(),
                    n == reg.len(),
                    0 <= q <= pn == pending@.len(),
                    sorted@.len() + new_pending@.len() == sorted_start.len() + q,
                    sorted@.no_duplicates(),
                    new_pending@.no_duplicates(),
                    pending@.no_duplicates(),
                    order_in_range(reg, sorted@),
                    forall|a: int| 0 <= a < pending@.len() ==> (#[trigger] pending@[a] as int) < n,
                    forall|a: int| 0 <= a < new_pending@.len() ==> (#[trigger] new_pending@[a] as int)
                        < n,
                    // every index is in sorted, new_pending, or the unprocessed tail
                    forall|k: int| 0 <= k < n ==> idx_in(sorted@, k) || idx_in(new_pending@, k)
                        || (exists|j: int| q <= j < pending@.len() && pending@[j] as int == k),
                    // the three parts stay disjoint
                    forall|a: int| 0 <= a < new_pending@.len() ==> !idx_in(
                        sorted@,
                        #[trigger] new_pending@[a] as int,
                    ),
                    forall|j: int| q <= j < pending@.len() ==> !idx_in(
                        sorted@,
                        #[trigger] pending@[j] as int,
                    ),
                    forall|j: int| q <= j < pending@.len() ==> !idx_in(
                        new_pending@,
                        #[trigger] pending@[j] as int,
                    ),
                    topo_ok(reg, sorted@),
                    // without progress the pass has changed nothing,
                    // and every parked module other than a held-back
                    // entry still has an unmet require
                    !progress ==> sorted@ == sorted_start,
                    progress ==> sorted@.len() > sorted_start.len(),
                    !progress ==> forall|a: int|
                        0 <= a < new_pending@.len() && (reg[new_pending@[a] as int].0@
                            != "entry_point"@ || pn == 1) ==> !spec_deps_ok(
                            reg,
                            #[trigger] new_pending@[a] as int,
                            sorted@,
                        ),
                    // the entry is emitted only as the sole, final step
                    q == 0 ==> sorted@ == sorted_start && new_pending@.len() == 0,
                    has_entry_idx(reg, sorted@) ==> (pn == 1 && q == pn && sorted@.len() > 0
                        && reg[sorted@.last() as int].0@ == "entry_point"@ && new_pending@.len()
                        == 0),
                    // the pass computes exactly the per-pass fixed point
                    spec_pass(reg, sorted_start, pending@, pn as int).0 == spec_pass(
                        reg,
                        sorted@,
                        pending@.skip(q as int),
                        pn as int,
                    ).0,
                    spec_pass(reg, sorted_start, pending@, pn as int).1 == new_pending@
                        + spec_pass(reg, sorted@, pending@.skip(q as int), pn as int).1,
                decreases pn - q,
            {
                let idx = pending[q];
                let ghost old_sorted = sorted@;
                let ghost old_new_pending = new_pending@;
                let is_entry = str_eq(self.sources[idx].0.as_str(), "entry_point");
                let deps_ok_now = self.deps_satisfied(idx, &sorted);
                if deps_ok_now && (!is_entry || pn == 1) {
                    sorted.push(idx);
                    progress = true;
                    proof {
                        lemma_no_dup_push(old_sorted, idx);
                        assert forall|k: int| 0 <= k < n implies idx_in(sorted@, k) || idx_in(
                            new_pending@,
                            k,
                        ) || (exists|j: int| q + 1 <= j < pending@.len() && pending@[j] as int == k)
                        by {
                            lemma_idx_in_push(old_sorted, idx, k);
                            if !(idx_in(old_sorted, k) || idx_in(new_pending@, k)) {
                                let j = choose|j: int| q <= j < pending@.len() && pending@[j] as int
                                    == k;
                                if j != q {
                                    assert(q + 1 <= j < pending@.len() && pending@[j] as int == k);
                                }
                            }
                        }
                        assert forall|a: int| 0 <= a < new_pending@.len() implies !idx_in(
                            sorted@,
                            #[trigger] new_pending@[a] as int,
                        ) by {
                            lemma_idx_in_push(old_sorted, idx, new_pending@[a] as int);
                        }
                        assert forall|j: int| q + 1 <= j < pending@.len() implies !idx_in(
                            sorted@,
                            #[trigger] pending@[j] as int,
                        ) by {
                            lemma_idx_in_push(old_sorted, idx, pending@[j] as int);
                            assert(pending@[j] != pending@[q as int]);
                        }
                        // the new last position satisfies the ordering rule
                        assert forall|a: int| 0 <= a < sorted@.len() implies spec_deps_ok(
                            reg,
                            #[trigger] sorted@[a] as int,
                            sorted@.take(a),
                        ) by {
                            if a < old_sorted.len() {
                                assert(sorted@.take(a) =~= old_sorted.take(a));
                                assert(sorted@[a] == old_sorted[a]);
                            } else {
                                assert(sorted@.take(a) =~= old_sorted);
                                assert(sorted@[a] == idx);
                            }
                        }
                        // one step of the per-pass fixed point
                        assert(pending@.skip(q as int)[0] == pending@[q as int]);
                        assert(pending@.skip(q as int).drop_first() =~= pending@.skip(
                            q as int + 1,
                        ));
                        assert(spec_pass(reg, old_sorted, pending@.skip(q as int), pn as int)
                            == spec_pass(reg, sorted@, pending@.skip(q as int + 1), pn as int));
                        // the entry lands only as the sole, final step
                        if is_entry {
                            assert(pn == 1);
                            assert(q == 0);
                            assert(new_pending@.len() == 0);
                            assert(reg[sorted@.last() as int].0@ == "entry_point"@);
                        } else {
                            assert(!has_entry_idx(reg, sorted@)) by {
                                if has_entry_idx(reg, sorted@) {
                                    let a = choose|a: int|
                                        0 <= a < sorted@.len() && reg[sorted@[a] as int].0@
                                            == "entry_point"@;
                                    if a < old_sorted.len() {
                                        assert(has_entry_idx(reg, old_sorted));
                                        assert(false);
                                    } else {
                                        assert(sorted@[a] == idx);
                                        assert(false);
                                    }
                                }
                            }
                        }
                    }
                } else {
                    new_pending.push(idx);
                    proof {
                        lemma_no_dup_push(old_new_pending, idx);
                        assert forall|k: int| 0 <= k < n implies idx_in(sorted@, k) || idx_in(
                            new_pending@,
                            k,
                        ) || (exists|j: int| q + 1 <= j < pending@.len() && pending@[j] as int == k)
                        by {
                            lemma_idx_in_push(old_new_pending, idx, k);
                            if !(idx_in(sorted@, k) || idx_in(old_new_pending, k)) {
                                let j = choose|j: int| q <= j < pending@.len() && pending@[j] as int
                                    == k;
                                if j != q {
                                    assert(q + 1 <= j < pending@.len() && pending@[j] as int == k);
                                }
                            }
                        }
                        assert forall|a: int| 0 <= a < new_pending@.len() implies !idx_in(
                            sorted@,
                            #[trigger] new_pending@[a] as int,
                        ) by {
                            if a < old_new_pending.len() {
                            } else {
                                assert(new_pending@[a] == pending@[q as int]);
                            }
                        }
                        assert forall|j: int| q + 1 <= j < pending@.len() implies !idx_in(
                            new_pending@,
                            #[trigger] pending@[j] as int,
                        ) by {
                            lemma_idx_in_push(old_new_pending, idx, pending@[j] as int);
                            assert(pending@[j] != pending@[q as int]);
                        }
                        if !progress {
                            assert forall|a: int|
                                0 <= a < new_pending@.len() && (reg[new_pending@[a] as int].0@
                                    != "entry_point"@ || pn == 1) implies !spec_deps_ok(
                                reg,
                                #[trigger] new_pending@[a] as int,
                                sorted@,
                            ) by {
                                if a < old_new_pending.len() {
                                } else {
                                    assert(new_pending@[a] == idx);
                                    if reg[idx as int].0@ != "entry_point"@ {
                                        assert(!is_entry);
                                        assert(!deps_ok_now);
                                    } else {
                                        if pn == 1 {
                                            assert(!deps_ok_now);
                                        }
                                    }
                                }
                            }
                        }
                        // the registration order is unchanged, so the
                        // entry is still unplaced
                        assert(!has_entry_idx(reg, sorted@)) by {
                            if has_entry_idx(reg, sorted@) {
                                assert(false);
                            }
                        }
                        // one step of the per-pass fixed point
                        assert(pending@.skip(q as int)[0] == pending@[q as int]);
                        assert(pending@.skip(q as int).drop_first() =~= pending@.skip(
                            q as int + 1,
                        ));
                        assert(spec_pass(reg, sorted@, pending@.skip(q as int), pn as int).1
                            == seq![pending@[q as int]] + spec_pass(
                            reg,
                            sorted@,
                            pending@.skip(q as int + 1),
                            pn as int,
                        ).1);
                        assert(old_new_pending + (seq![pending@[q as int]] + spec_pass(
                            reg,
                            sorted@,
                            pending@.skip(q as int + 1),
                            pn as int,
                        ).1) =~= new_pending@ + spec_pass(
                            reg,
                            sorted@,
                            pending@.skip(q as int + 1),
                            pn as int,
                        ).1);
                    }
                }
                q = q + 1;
            }
            proof {
                // the pass computed exactly the per-pass fixed point
                assert(pending@.skip(pn as int) =~= Seq::<usize>::empty());
                assert(new_pending@ + Seq::<usize>::empty() =~= new_pending@);
                assert(spec_pass(reg, sorted_start, pending@, pn as int).0 == sorted@);
                assert(spec_pass(reg, sorted_start, pending@, pn as int).1 == new_pending@);
            }
            if !progress {
                // no pass can ever make progress again: report the
                // modules with unmet requires as a cycle
                let ghost napp = new_pending@;
                let sn = new_pending.len();
                proof {
                    assert(sorted@.len() + new_pending@.len() == sorted_start.len() + pn);
                    assert(sorted@ == sorted_start);
                    assert(sn == pn > 0);
                    assert(spec_passes(reg, sorted_start, pending@) == Err::<
                        Seq<usize>,
                        Seq<usize>,
                    >(new_pending@));
                    assert(spec_sorted_order(reg) is Err);
                }
                let mut stuck: Vec<String> = Vec::new();
                // ghost maps: where each stuck name came from, and
                // where each parked module's name went
                let ghost mut stuck_src: Seq<int> = Seq::empty();
                let ghost mut in_stuck: Seq<int> = Seq::empty();
                let mut x: usize = 0;
                while x < sn
                    invariant
                        reg == self.sources@,
                        self.wf(),
                        0 <= x <= sn == new_pending@.len(),
                        napp == new_pending@,
                        forall|a: int| 0 <= a < new_pending@.len() ==> (#[trigger] new_pending@[a] as int)
                            < reg.len(),
                        stuck_src.len() == stuck@.len(),
                        forall|j: int|
                            0 <= j < stuck@.len() ==> 0 <= (#[trigger] stuck_src[j]) < x
                                && reg[new_pending@[stuck_src[j]] as int].0@ == stuck@[j]@
                                && !spec_deps_ok(reg, new_pending@[stuck_src[j]] as int, sorted@),
                        in_stuck.len() == x,
                        forall|a: int|
                            0 <= a < x ==> (spec_deps_ok(
                                reg,
                                #[trigger] new_pending@[a] as int,
                                sorted@,
                            ) || (0 <= in_stuck[a] < stuck@.len() && stuck@[in_stuck[a]]@
                                == reg[new_pending@[a] as int].0@)),
                    decreases sn - x,
                {
                    let k = new_pending[x];
                    let ghost old_stuck = stuck@;
                    let ghost old_stuck_src = stuck_src;
                    let ghost old_in_stuck = in_stuck;
                    if !self.deps_satisfied(k, &sorted) {
                        stuck.push(self.sources[k].0.clone());
                        proof {
                            stuck_src = stuck_src.push(x as int);
                            in_stuck = in_stuck.push(old_stuck.len() as int);
                            assert forall|j: int|
                                0 <= j < stuck@.len() implies 0 <= (#[trigger] stuck_src[j]) < x
                                + 1 && reg[new_pending@[stuck_src[j]] as int].0@ == stuck@[j]@
                                && !spec_deps_ok(
                                reg,
                                new_pending@[stuck_src[j]] as int,
                                sorted@,
                            ) by {
                                if j < old_stuck.len() {
                                    assert(stuck@[j] == old_stuck[j]);
                                    assert(stuck_src[j] == old_stuck_src[j]);
                                } else {
                                    assert(stuck_src[j] == x as int);
                                    assert(stuck@[j]@ == reg[new_pending@[x as int] as int].0@);
                                }
                            }
                            assert forall|a: int|
                                0 <= a < x + 1 implies (spec_deps_ok(
                                reg,
                                #[trigger] new_pending@[a] as int,
                                sorted@,
                            ) || (0 <= in_stuck[a] < stuck@.len() && stuck@[in_stuck[a]]@
                                == reg[new_pending@[a] as int].0@)) by {
                                if a < x as int {
                                    assert(in_stuck[a] == old_in_stuck[a]);
                                    if !spec_deps_ok(reg, new_pending@[a] as int, sorted@) {
                                        assert(stuck@[in_stuck[a]] == old_stuck[in_stuck[a]]);
                                    }
                                } else {
                                    assert(in_stuck[a] == old_stuck.len() as int);
                                    assert(stuck@[in_stuck[a]]@ == reg[new_pending@[a] as int].0@);
                                }
                            }
                        }
                    } else {
                        proof {
                            in_stuck = in_stuck.push(-1);
                            assert forall|a: int|
                                0 <= a < x + 1 implies (spec_deps_ok(
                                reg,
                                #[trigger] new_pending@[a] as int,
                                sorted@,
                            ) || (0 <= in_stuck[a] < stuck@.len() && stuck@[in_stuck[a]]@
                                == reg[new_pending@[a] as int].0@)) by {
                                if a < x as int {
                                    assert(in_stuck[a] == old_in_stuck[a]);
                                } else {
                                    assert(spec_deps_ok(reg, new_pending@[a] as int, sorted@));
                                }
                            }
                        }
                    }
                    x = x + 1;
                }
                proof {
                    // the stuck set is nonempty: some parked module
                    // has unmet requires
                    if pn == 1 {
                        assert(!spec_deps_ok(reg, new_pending@[0] as int, sorted@));
                        assert(0 <= in_stuck[0] < stuck@.len());
                    } else {
                        let a0: int = if reg[new_pending@[0] as int].0@ == "entry_point"@ {
                            1
                        } else {
                            0
                        };
                        if a0 == 1 {
                            assert(new_pending@[0] != new_pending@[1]);
                            assert(reg[new_pending@[1] as int].0@ != "entry_point"@);
                        }
                        assert(!spec_deps_ok(reg, new_pending@[a0] as int, sorted@));
                        assert(0 <= in_stuck[a0] < stuck@.len());
                    }
                    // every registry position is emitted or parked
                    assert forall|k: int| 0 <= k < reg.len() implies idx_in(sorted@, k) || idx_in(
                        new_pending@,
                        k,
                    ) by {
                        if !(idx_in(sorted@, k) || idx_in(new_pending@, k)) {
                            let j = choose|j: int|
                                pn <= j < pending@.len() && pending@[j] as int == k;
                            assert(false);
                        }
                    }
                    // a parked module with met requires is the held
                    // entry
                    assert forall|a: int|
                        0 <= a < new_pending@.len() && spec_deps_ok(
                            reg,
                            #[trigger] new_pending@[a] as int,
                            sorted@,
                        ) implies reg[new_pending@[a] as int].0@ == "entry_point"@ by {}
                    lemma_stuck_set(reg, new_pending@, stuck@, sorted@, stuck_src, in_stuck);
                }
                return Err(stuck);
            }
            proof {
                assert(sorted@.len() > sorted_start.len());
                assert(new_pending@.len() < pending@.len());
                assert(spec_passes(reg, sorted_start, pending@) == spec_passes(
                    reg,
                    sorted@,
                    new_pending@,
                ));
            }
            pending = new_pending;
        }
    }
}

// ---------------------------------------------------------------------
// File lookup
// ---------------------------------------------------------------------

/// The file name of a path: the suffix after the last `/`.
pub open spec fn spec_basename(p: Seq<char>) -> Seq<char>
    decreases p.len(),
{
    if p.len() == 0 {
        p
    } else if p.last() == '/' {
        Seq::empty()
    } else {
        spec_basename(p.drop_last()).push(p.last())
    }
}

proof fn lemma_basename_from(p: Seq<char>, start: int)
    requires
        0 <= start <= p.len(),
        forall|k: int| start <= k < p.len() ==> p[k] != '/',
        start > 0 ==> p[start - 1] == '/',
    ensures
        spec_basename(p) == p.subrange(start, p.len() as int),
    decreases p.len(),
{
    if start == p.len() {
        if p.len() == 0 {
            assert(p.subrange(0, 0) =~= p);
        } else {
            assert(p.last() == '/');
            assert(p.subrange(start, p.len() as int) =~= Seq::<char>::empty());
        }
    } else {
        assert(p[p.len() - 1] != '/');
        let q = p.drop_last();
        lemma_basename_from(q, start);
        assert(p.subrange(start, p.len() as int) =~= q.subrange(start, q.len() as int).push(
            p.last(),
        ));
    }
}

/// The file name of a path, executable form.
fn file_basename(path: &str) -> (r: &str)
    ensures
        r@ == spec_basename(path@),
{
    let len = path.unicode_len();
    let mut start = len;
    loop
        invariant
            0 <= start <= len == path@.len(),
            forall|k: int| start <= k < len ==> path@[k] != '/',
        decreases start,
    {
        if start == 0 {
            proof {
                lemma_basename_from(path@, 0);
            }
            return path.substring_char(0, len);
        }
        if path.get_char(start - 1) == '/' {
            proof {
                lemma_basename_from(path@, start as int);
            }
            return path.substring_char(start, len);
        }
        start = start - 1;
    }
}

// ---------------------------------------------------------------------
// Import rewriting and artifact emission
// ---------------------------------------------------------------------

/// The runtime-registry lookup that replaces a rewritten import call.
pub open spec fn spec_replacement(nm: Seq<char>) -> Seq<char> {
    "load_module(\""@ + nm + "\")"@
}

/// The module's text with every import call of a registry key replaced
/// by a runtime-registry lookup; import calls of external names are
/// left verbatim, and a matched call is never re-matched inside.
pub open spec fn spec_rewrite_from(
    s: Seq<char>,
    i: int,
    reg: Seq<(String, CodeSrcFile)>,
) -> Seq<char>
    decreases s.len() - i when 0 <= i <= s.len() via spec_rewrite_from_decreases
{
    if i >= s.len() {
        Seq::empty()
    } else if spec_import_at(s, i) {
        if has_key(reg, spec_import_name(s, i)) {
            spec_replacement(spec_import_name(s, i)) + spec_rewrite_from(
                s,
                spec_import_end(s, i),
                reg,
            )
        } else {
            s.subrange(i, spec_import_end(s, i)) + spec_rewrite_from(s, spec_import_end(s, i), reg)
        }
    } else {
        seq![s[i]] + spec_rewrite_from(s, i + 1, reg)
    }
}

#[via_fn]
proof fn spec_rewrite_from_decreases(s: Seq<char>, i: int, reg: Seq<(String, CodeSrcFile)>) {
    if 0 <= i < s.len() && spec_import_at(s, i) {
        lemma_import_end(s, i);
    }
}

/// The fixed prologue of every artifact: the runtime registry, the
/// cache, and the memoizing lookup function (a thunk runs at most
/// once; later lookups return the cached value).
pub open spec fn spec_header() -> Seq<char> {
    "local modules = {}\nlocal cache = {}\nlocal function load_module(name)\nif cache[name] == nil then\ncache[name] = modules[name]()\nend\nreturn cache[name]\nend\n"@
}

/// The single closing statement: look up and invoke the entry point.
pub open spec fn spec_footer() -> Seq<char> {
    "\nload_module('entry_point')\n"@
}

/// One begin/end-delimited module-registration block.
pub open spec fn spec_block(
    reg: Seq<(String, CodeSrcFile)>,
    name: Seq<char>,
    src: Seq<char>,
) -> Seq<char> {
    "-- Begin: "@ + name + " module\n"@ + "modules['"@ + name + "'] = (function()\n"@
        + spec_rewrite_from(src, 0, reg) + "\nend)\n"@ + "-- End: "@ + name + " module\n"@
}

/// The registration blocks of the ordered modules, in order.
pub open spec fn spec_blocks(reg: Seq<(String, CodeSrcFile)>, order: Seq<usize>) -> Seq<char>
    decreases order.len(),
{
    if order.len() == 0 {
        Seq::empty()
    } else {
        spec_blocks(reg, order.drop_last()) + spec_block(
            reg,
            reg[order.last() as int].0@,
            reg[order.last() as int].1.source@,
        )
    }
}

/// The whole artifact.
pub open spec fn spec_bundle(reg: Seq<(String, CodeSrcFile)>, order: Seq<usize>) -> Seq<char> {
    spec_header() + spec_blocks(reg, order) + spec_footer()
}

impl LuaBundler {
    /// Rewrites one module's text for the artifact.
    fn rewrite_source(&self, source: &str) -> (out: String)
        ensures
            out@ == spec_rewrite_from(source@, 0, self.sources@),
    {
        let ghost s = source@;
        let ghost reg = self.sources@;
        let len = source.unicode_len();
        let mut out = String::new();
        let mut i: usize = 0;
        while i < len
            invariant
                s == source@,
                reg == self.sources@,
                0 <= i <= len == s.len(),
                spec_rewrite_from(s, 0, reg) == out@ + spec_rewrite_from(s, i as int, reg),
            decreases len - i,
        {
            let ghost out_prev = out@;
            match import_at(source, i) {
                Some(pair) => {
                    let (name, end) = pair;
                    proof {
                        lemma_import_end(s, i as int);
                    }
                    if self.find_key(name.as_str()).is_some() {
                        out.append("load_module(\"");
                        out.append(name.as_str());
                        out.append("\")");
                        proof {
                            assert(out@ =~= out_prev + spec_replacement(name@));
                        }
                    } else {
                        out.append(source.substring_char(i, end));
                    }
                    proof {
                        assert(out@ + spec_rewrite_from(s, end as int, reg) =~= out_prev
                            + spec_rewrite_from(s, i as int, reg));
                    }
                    i = end;
                },
                None => {
                    push_char(&mut out, source.get_char(i));
                    proof {
                        assert(out@ + spec_rewrite_from(s, i + 1, reg) =~= out_prev
                            + spec_rewrite_from(s, i as int, reg));
                    }
                    i = i + 1;
                },
            }
        }
        proof {
            assert(spec_rewrite_from(s, len as int, reg) =~= Seq::<char>::empty());
            assert(out@ + Seq::<char>::empty() =~= out@);
        }
        out
    }

    /// Serializes the ordered modules into the single self-executing
    /// artifact: the fixed prologue, one registration block per module
    /// in order, and the one closing statement that invokes the entry
    /// point.
    pub fn emit_bundle(&self, order: &Vec<usize>) -> (out: String)
        requires
            order_in_range(self.sources@, order@),
        ensures
            out@ == spec_bundle(self.sources@, order@),
    {
        let ghost reg = self.sources@;
        let ghost ordv = order@;
        let mut out = String::new();
        out.append(
            "local modules = {}\nlocal cache = {}\nlocal function load_module(name)\nif cache[name] == nil then\ncache[name] = modules[name]()\nend\nreturn cache[name]\nend\n",
        );
        let n = order.len();
        let mut a: usize = 0;
        while a < n
            invariant
                reg == self.sources@,
                ordv == order@,
                order_in_range(reg, ordv),
                0 <= a <= n == ordv.len(),
                out@ == spec_header() + spec_blocks(reg, ordv.take(a as int)),
            decreases n - a,
        {
            let ghost out_prev = out@;
            let idx = order[a];
            out.append("-- Begin: ");
            out.append(self.sources[idx].0.as_str());
            out.append(" module\n");
            out.append("modules['");
            out.append(self.sources[idx].0.as_str());
            out.append("'] = (function()\n");
            let rewritten = self.rewrite_source(self.sources[idx].1.source.as_str());
            out.append(rewritten.as_str());
            out.append("\nend)\n");
            out.append("-- End: ");
            out.append(self.sources[idx].0.as_str());
            out.append(" module\n");
            proof {
                let taken = ordv.take(a as int + 1);
                assert(taken.drop_last() =~= ordv.take(a as int));
                assert(taken.last() == ordv[a as int]);
                assert(out@ =~= out_prev + spec_block(
                    reg,
                    reg[ordv[a as int] as int].0@,
                    reg[ordv[a as int] as int].1.source@,
                ));
                assert(out@ =~= spec_header() + spec_blocks(reg, taken));
            }
            a = a + 1;
        }
        out.append("\nload_module('entry_point')\n");
        proof {
            assert(ordv.take(n as int) =~= ordv);
            assert(out@ =~= spec_bundle(reg, ordv));
        }
        out
    }
}

/// When `stuck` names exactly the parked modules with unmet
/// registry-key requires, the parked set is disjoint from the emitted
/// set, and the only parked module with met requires can be the held
/// entry, then each stuck name's module requires another stuck member
/// or the reserved entry key.
proof fn lemma_stuck_set(
    reg: Seq<(String, CodeSrcFile)>,
    parked: Seq<usize>,
    stuck: Seq<String>,
    emitted: Seq<usize>,
    stuck_src: Seq<int>,
    in_stuck: Seq<int>,
)
    requires
        keys_unique(reg),
        forall|j: int| 0 <= j < parked.len() ==> (#[trigger] parked[j] as int) < reg.len(),
        stuck_src.len() == stuck.len(),
        forall|j: int|
            0 <= j < stuck.len() ==> 0 <= (#[trigger] stuck_src[j]) < parked.len()
                && reg[parked[stuck_src[j]] as int].0@ == stuck[j]@ && !spec_deps_ok(
                reg,
                parked[stuck_src[j]] as int,
                emitted,
            ),
        in_stuck.len() == parked.len(),
        forall|a: int|
            0 <= a < parked.len() ==> (spec_deps_ok(reg, #[trigger] parked[a] as int, emitted) || (
            0 <= in_stuck[a] < stuck.len() && stuck[in_stuck[a]]@ == reg[parked[a] as int].0@)),
        forall|a: int|
            0 <= a < parked.len() && spec_deps_ok(reg, #[trigger] parked[a] as int, emitted)
                ==> reg[parked[a] as int].0@ == "entry_point"@,
        // every registry position is emitted or parked
        forall|k: int| 0 <= k < reg.len() ==> idx_in(emitted, k) || idx_in(parked, k),
        order_in_range(reg, emitted),
    ensures
        stuck_set_ok(reg, stuck),
{
    assert forall|x: int| 0 <= x < stuck.len() implies has_key(reg, #[trigger] stuck[x]@) && (exists|
        m: int,
        d: int,
    |
        0 <= m < reg.len() && reg[m].0@ == stuck[x]@ && 0 <= d < reg[m].1.requires@.len()
            && has_key(reg, reg[m].1.requires@[d]@) && (name_in(stuck, reg[m].1.requires@[d]@)
            || reg[m].1.requires@[d]@ == "entry_point"@)) by {
        let m = parked[stuck_src[x]] as int;
        assert(reg[m].0@ == stuck[x]@);
        assert(has_key(reg, stuck[x]@));
        assert(!spec_deps_ok(reg, m, emitted));
        let d = choose|d: int|
            !(0 <= d < reg[m].1.requires@.len() && has_key(reg, #[trigger] reg[m].1.requires@[d]@)
                ==> emitted_has(reg, emitted, reg[m].1.requires@[d]@));
        let nm = reg[m].1.requires@[d]@;
        assert(has_key(reg, nm));
        assert(!emitted_has(reg, emitted, nm));
        let k = choose|k: int| 0 <= k < reg.len() && reg[k].0@ == nm;
        assert(idx_in(emitted, k) || idx_in(parked, k));
        if idx_in(emitted, k) {
            let b = choose|b: int| 0 <= b < emitted.len() && emitted[b] as int == k;
            assert(reg[emitted[b] as int].0@ == nm);
            assert(false);
        }
        let j = choose|j: int| 0 <= j < parked.len() && parked[j] as int == k;
        if spec_deps_ok(reg, k, emitted) {
            assert(reg[k].0@ == "entry_point"@);
        } else {
            assert(0 <= in_stuck[j] < stuck.len() && stuck[in_stuck[j]]@ == reg[k].0@);
            assert(name_in(stuck, reg[k].0@));
        }
    }
}

// ---------------------------------------------------------------------
// Dependency discovery and the bundle operation
// ---------------------------------------------------------------------

/// `nm` is either a registry key or a recorded unresolved name.
pub open spec fn name_settled(
    reg: Seq<(String, CodeSrcFile)>,
    unres: Seq<String>,
    nm: Seq<char>,
) -> bool {
    has_key(reg, nm) || name_in(unres, nm)
}

/// Every require of every registered module is settled: itself a
/// registry key, or recorded as unresolved.
pub open spec fn registry_closed(reg: Seq<(String, CodeSrcFile)>, unres: Seq<String>) -> bool {
    forall|m: int, d: int|
        0 <= m < reg.len() && 0 <= d < reg[m].1.requires@.len() ==> name_settled(
            reg,
            unres,
            #[trigger] reg[m].1.requires@[d]@,
        )
}

/// `nm` occurs in the unprocessed tail of the work list.
pub open spec fn queue_tail_has(queue: Seq<String>, qi: int, nm: Seq<char>) -> bool {
    exists|j: int| qi <= j < queue.len() && queue[j]@ == nm
}

/// During discovery a required name is settled, reserved, or still
/// queued for processing.
pub open spec fn name_pending_ok(
    reg: Seq<(String, CodeSrcFile)>,
    unres: Seq<String>,
    queue: Seq<String>,
    qi: int,
    nm: Seq<char>,
) -> bool {
    name_settled(reg, unres, nm) || nm == "entry_point"@ || queue_tail_has(queue, qi, nm)
}

/// A registered module's identity: text and requires taken from a
/// file of the supplied list whose file name is the module name plus
/// `.lua`.
pub open spec fn module_from_files(
    files: Seq<(String, String)>,
    name: Seq<char>,
    m: CodeSrcFile,
) -> bool {
    exists|f: int|
        0 <= f < files.len() && spec_basename(files[f].0@) == name + ".lua"@ && m.path@ == files[f].0@
            && m.source@ == files[f].1@ && m.requires.deep_view() == spec_requires_from(
            files[f].1@,
            0,
        )
}

/// The entry point is registered under its reserved key, carrying the
/// text of the first supplied file whose path is the entry path.
pub open spec fn entry_registered(
    files: Seq<(String, String)>,
    entry_path: Seq<char>,
    reg: Seq<(String, CodeSrcFile)>,
) -> bool {
    exists|e: int, f: int|
        {
            &&& 0 <= e < reg.len()
            &&& reg[e].0@ == "entry_point"@
            &&& 0 <= f < files.len()
            &&& files[f].0@ == entry_path
            &&& (forall|g: int| 0 <= g < f ==> files[g].0@ != entry_path)
            &&& reg[e].1.path@ == entry_path
            &&& reg[e].1.source@ == files[f].1@
            &&& reg[e].1.requires.deep_view() == spec_requires_from(files[f].1@, 0)
        }
}

/// `a` is an elementwise prefix of `b`.
pub open spec fn seq_prefix(a: Seq<String>, b: Seq<String>) -> bool {
    a.len() <= b.len() && forall|j: int| 0 <= j < a.len() ==> a[j] == b[j]
}

/// Every recorded unresolved name really resolves to nothing: no
/// supplied file's name is that module name plus `.lua`.
pub open spec fn unresolved_justified(files: Seq<(String, String)>, unres: Seq<String>) -> bool {
    forall|u: int, f: int|
        #![trigger unres[u], files[f]]
        0 <= u < unres.len() && 0 <= f < files.len() ==> spec_basename(files[f].0@) != unres[u]@
            + ".lua"@
}

/// Every recorded unresolved name was actually required by some
/// registered module: warnings are never fabricated.
pub open spec fn unresolved_required(
    reg: Seq<(String, CodeSrcFile)>,
    unres: Seq<String>,
) -> bool {
    forall|u: int|
        0 <= u < unres.len() ==> (exists|m2: int, d: int|
            0 <= m2 < reg.len() && 0 <= d < reg[m2].1.requires@.len() && reg[m2].1.requires@[d]@
                == (#[trigger] unres[u]@))
}

/// Every non-entry registry key is a required name of some registered
/// module: the registry holds only what discovery reached.
pub open spec fn registry_reachable(reg: Seq<(String, CodeSrcFile)>) -> bool {
    forall|m: int|
        0 <= m < reg.len() && (#[trigger] reg[m].0@) != "entry_point"@ ==> (exists|m2: int, d: int|
            0 <= m2 < reg.len() && 0 <= d < reg[m2].1.requires@.len() && reg[m2].1.requires@[d]@
                == reg[m].0@)
}

/// During discovery, a name on the work list was required by the
/// entry file or by a registered module.
pub open spec fn name_required(
    reg: Seq<(String, CodeSrcFile)>,
    entry_reqs: Seq<Seq<char>>,
    nm: Seq<char>,
) -> bool {
    entry_reqs.contains(nm) || (exists|m2: int, d: int|
        0 <= m2 < reg.len() && 0 <= d < reg[m2].1.requires@.len() && reg[m2].1.requires@[d]@ == nm)
}

/// During discovery, file `f` of the supplied list is either still on
/// the available list or already consumed by the module of its name.
pub open spec fn file_available(
    files: Seq<(String, String)>,
    remaining: Seq<(String, String)>,
    reg: Seq<(String, CodeSrcFile)>,
    f: int,
) -> bool {
    ||| (exists|j: int|
        0 <= j < remaining.len() && remaining[j].0@ == files[f].0@ && remaining[j].1@
            == files[f].1@)
    ||| (exists|m: int| 0 <= m < reg.len() && spec_basename(files[f].0@) == reg[m].0@ + ".lua"@)
}

/// Being a required name survives growing the registry.
proof fn lemma_required_monotone(
    reg1: Seq<(String, CodeSrcFile)>,
    reg2: Seq<(String, CodeSrcFile)>,
    entry_reqs: Seq<Seq<char>>,
)
    requires
        reg1.len() <= reg2.len(),
        forall|k: int| 0 <= k < reg1.len() ==> reg2[k] == reg1[k],
    ensures
        forall|nm: Seq<char>| name_required(reg1, entry_reqs, nm) ==> #[trigger] name_required(
            reg2,
            entry_reqs,
            nm,
        ),
{
    assert forall|nm: Seq<char>| name_required(reg1, entry_reqs, nm) implies #[trigger] name_required(
        reg2,
        entry_reqs,
        nm,
    ) by {
        if !entry_reqs.contains(nm) {
            let (m2, d) = choose|m2: int, d: int|
                0 <= m2 < reg1.len() && 0 <= d < reg1[m2].1.requires@.len()
                    && reg1[m2].1.requires@[d]@ == nm;
            assert(reg2[m2].1.requires@[d]@ == nm);
        }
    }
}

/// Appending the same suffix to two sequences preserves distinctness.
proof fn lemma_append_cancel(a: Seq<char>, b: Seq<char>, s: Seq<char>)
    requires
        a + s == b + s,
    ensures
        a == b,
{
    assert((a + s).len() == a.len() + s.len());
    assert((b + s).len() == b.len() + s.len());
    assert(a.len() == b.len());
    assert forall|i: int| 0 <= i < a.len() implies a[i] == b[i] by {
        assert((a + s)[i] == a[i]);
        assert((b + s)[i] == b[i]);
    }
    assert(a =~= b);
}

impl LuaBundler {
    /// Position of the first file of the list whose file name is
    /// literally `<name>.lua` (the list's order is the traversal
    /// order; callers supply it sorted by path for reproducibility).
    pub fn find_module(name: &String, files: &Vec<(String, String)>) -> (r: Option<usize>)
        ensures
            match r {
                Some(f) => (f as int) < files@.len() && spec_basename(files@[f as int].0@) == name@
                    + ".lua"@ && (forall|g: int|
                    0 <= g < f ==> spec_basename(files@[g].0@) != name@ + ".lua"@),
                None => forall|g: int|
                    0 <= g < files@.len() ==> spec_basename(files@[g].0@) != name@ + ".lua"@,
            },
    {
        let target = name.clone().concat(".lua");
        let n = files.len();
        let mut f: usize = 0;
        loop
            invariant
                0 <= f <= n == files@.len(),
                target@ == name@ + ".lua"@,
                forall|g: int| 0 <= g < f ==> spec_basename(files@[g].0@) != name@ + ".lua"@,
            decreases n - f,
        {
            if f >= n {
                return None;
            }
            if str_eq(file_basename(files[f].0.as_str()), target.as_str()) {
                return Some(f);
            }
            f = f + 1;
        }
    }

    /// Position of the first file whose path equals `path` exactly.
    fn find_file_by_path(path: &String, files: &Vec<(String, String)>) -> (r: Option<usize>)
        ensures
            match r {
                Some(f) => (f as int) < files@.len() && files@[f as int].0@ == path@ && (forall|
                    g: int,
                |
                    0 <= g < f ==> files@[g].0@ != path@),
                None => forall|g: int| 0 <= g < files@.len() ==> files@[g].0@ != path@,
            },
    {
        let n = files.len();
        let mut f: usize = 0;
        loop
            invariant
                0 <= f <= n == files@.len(),
                forall|g: int| 0 <= g < f ==> files@[g].0@ != path@,
            decreases n - f,
        {
            if f >= n {
                return None;
            }
            if str_eq(files[f].0.as_str(), path.as_str()) {
                return Some(f);
            }
            f = f + 1;
        }
    }

    /// Produces the bundle for the entry file, discovering modules in
    /// the supplied file list (each entry a path and the file's text,
    /// in traversal order).  The registry is built breadth-first from
    /// the entry's requires: a required name already registered is
    /// skipped, one matching a file is parsed and registered, and one
    /// matching nothing is recorded in `unresolved` and left external
    /// (non-fatal).  A missing entry file is fatal; an import cycle is
    /// fatal and reported with the stuck module names; no partial
    /// artifact is returned in either case.
    pub fn bundle(&mut self, entry_path: &String, files: &Vec<(String, String)>) -> (r: Result<
        String,
        BundleError,
    >)
        requires
            old(self).sources@.len() == 0,
            old(self).unresolved@.len() == 0,
        ensures
            final(self).wf(),
            match r {
                Ok(out) => {
                    &&& registry_closed(final(self).sources@, final(self).unresolved@)
                    &&& has_key(final(self).sources@, "entry_point"@)
                    &&& entry_registered(files@, entry_path@, final(self).sources@)
                    &&& (forall|m: int|
                        0 <= m < final(self).sources@.len() && final(self).sources@[m].0@
                            != "entry_point"@ ==> module_from_files(
                            files@,
                            final(self).sources@[m].0@,
                            #[trigger] final(self).sources@[m].1,
                        ))
                    &&& unresolved_justified(files@, final(self).unresolved@)
                    &&& unresolved_required(final(self).sources@, final(self).unresolved@)
                    &&& registry_reachable(final(self).sources@)
                    &&& (exists|order: Seq<usize>|
                        {
                            &&& order.len() == final(self).sources@.len()
                            &&& order.no_duplicates()
                            &&& order_in_range(final(self).sources@, order)
                            &&& (forall|k: int|
                                0 <= k < final(self).sources@.len() ==> idx_in(order, k))
                            &&& topo_ok(final(self).sources@, order)
                            &&& order.len() > 0
                            &&& final(self).sources@[order[order.len() - 1] as int].0@
                                == "entry_point"@
                            &&& spec_sorted_order(final(self).sources@) == Ok::<
                                Seq<usize>,
                                Seq<usize>,
                            >(order)
                            &&& out@ == spec_bundle(final(self).sources@, order)
                        })
                },
                Err(e) => match e {
                    BundleError::EntryUnreadable => forall|f: int|
                        0 <= f < files@.len() ==> files@[f].0@ != entry_path@,
                    BundleError::Cycle(stuck) => {
                        &&& stuck@.len() > 0
                        &&& stuck_set_ok(final(self).sources@, stuck@)
                        &&& registry_closed(final(self).sources@, final(self).unresolved@)
                        &&& has_key(final(self).sources@, "entry_point"@)
                        &&& entry_registered(files@, entry_path@, final(self).sources@)
                        &&& (forall|m: int|
                            0 <= m < final(self).sources@.len() && final(self).sources@[m].0@
                                != "entry_point"@ ==> module_from_files(
                                files@,
                                final(self).sources@[m].0@,
                                #[trigger] final(self).sources@[m].1,
                            ))
                        &&& unresolved_justified(files@, final(self).unresolved@)
                        &&& unresolved_required(final(self).sources@, final(self).unresolved@)
                        &&& registry_reachable(final(self).sources@)
                        &&& spec_sorted_order(final(self).sources@) is Err
                    },
                },
            },
    {
        let fe = match Self::find_file_by_path(entry_path, files) {
            Some(f) => f,
            None => {
                return Err(BundleError::EntryUnreadable);
            },
        };
        let mut entry_src = CodeSrcFile::new(entry_path.clone());
        entry_src.parse(files[fe].1.clone());
        // the work list starts with the entry's requires
        let mut queue: Vec<String> = Vec::new();
        let en = entry_src.requires.len();
        let mut d0: usize = 0;
        while d0 < en
            invariant
                0 <= d0 <= en == entry_src.requires@.len(),
                queue@.len() == d0,
                forall|j: int| 0 <= j < d0 ==> queue@[j]@ == entry_src.requires@[j]@,
            decreases en - d0,
        {
            queue.push(entry_src.requires[d0].clone());
            d0 = d0 + 1;
        }
        // the files not yet consumed by a registered module
        let mut remaining: Vec<(String, String)> = Vec::new();
        let fnum = files.len();
        let mut f0: usize = 0;
        while f0 < fnum
            invariant
                0 <= f0 <= fnum == files@.len(),
                remaining@.len() == f0,
                forall|j: int| 0 <= j < f0 ==> remaining@[j].0@ == files@[j].0@ && remaining@[j].1@
                    == files@[j].1@,
            decreases fnum - f0,
        {
            remaining.push((files[f0].0.clone(), files[f0].1.clone()));
            f0 = f0 + 1;
        }
        proof {
            assert forall|d: int| 0 <= d < entry_src.requires@.len() implies name_pending_ok(
                self.sources@,
                self.unresolved@,
                queue@,
                0,
                #[trigger] entry_src.requires@[d]@,
            ) by {
                assert(queue@[d]@ == entry_src.requires@[d]@);
            }
            assert forall|j: int| 0 <= j < remaining@.len() implies (exists|f: int|
                0 <= f < files@.len() && files@[f].0@ == (#[trigger] remaining@[j].0@)
                    && files@[f].1@ == remaining@[j].1@) by {
                assert(files@[j].0@ == remaining@[j].0@ && files@[j].1@ == remaining@[j].1@);
            }
            assert forall|f: int| 0 <= f < files@.len() implies #[trigger] file_available(
                files@,
                remaining@,
                self.sources@,
                f,
            ) by {
                assert(remaining@[f].0@ == files@[f].0@ && remaining@[f].1@ == files@[f].1@);
            }
            assert forall|j: int| 0 <= j < queue@.len() implies name_required(
                self.sources@,
                entry_src.requires.deep_view(),
                #[trigger] queue@[j]@,
            ) by {
                assert(entry_src.requires.deep_view()[j] == entry_src.requires@[j]@);
                assert(entry_src.requires.deep_view().contains(queue@[j]@));
            }
        }
        let mut qi: usize = 0;
        while qi < queue.len()
            invariant
                self.wf(),
                0 <= qi <= queue@.len(),
                0 <= fe < files@.len(),
                files@[fe as int].0@ == entry_path@,
                forall|g: int| 0 <= g < fe ==> files@[g].0@ != entry_path@,
                entry_src.path@ == entry_path@,
                entry_src.source@ == files@[fe as int].1@,
                entry_src.requires.deep_view() == spec_requires_from(files@[fe as int].1@, 0),
                forall|m: int| 0 <= m < self.sources@.len() ==> (#[trigger] self.sources@[m].0@)
                    != "entry_point"@,
                forall|m: int, d: int|
                    0 <= m < self.sources@.len() && 0 <= d < self.sources@[m].1.requires@.len()
                        ==> name_pending_ok(
                        self.sources@,
                        self.unresolved@,
                        queue@,
                        qi as int,
                        #[trigger] self.sources@[m].1.requires@[d]@,
                    ),
                forall|d: int|
                    0 <= d < entry_src.requires@.len() ==> name_pending_ok(
                        self.sources@,
                        self.unresolved@,
                        queue@,
                        qi as int,
                        #[trigger] entry_src.requires@[d]@,
                    ),
                forall|m: int|
                    0 <= m < self.sources@.len() ==> module_from_files(
                        files@,
                        self.sources@[m].0@,
                        #[trigger] self.sources@[m].1,
                    ),
                forall|j: int|
                    0 <= j < remaining@.len() ==> (exists|f: int|
                        0 <= f < files@.len() && files@[f].0@ == (#[trigger] remaining@[j].0@)
                            && files@[f].1@ == remaining@[j].1@),
                forall|f: int|
                    0 <= f < files@.len() ==> #[trigger] file_available(
                        files@,
                        remaining@,
                        self.sources@,
                        f,
                    ),
                unresolved_justified(files@, self.unresolved@),
                forall|j: int|
                    0 <= j < queue@.len() ==> name_required(
                        self.sources@,
                        entry_src.requires.deep_view(),
                        #[trigger] queue@[j]@,
                    ),
                forall|m: int|
                    0 <= m < self.sources@.len() ==> name_required(
                        self.sources@,
                        entry_src.requires.deep_view(),
                        #[trigger] self.sources@[m].0@,
                    ),
                forall|u: int|
                    0 <= u < self.unresolved@.len() ==> name_required(
                        self.sources@,
                        entry_src.requires.deep_view(),
                        #[trigger] self.unresolved@[u]@,
                    ),
            decreases remaining@.len(), queue@.len() - qi,
        {
            let ghost old_reg = self.sources@;
            let ghost old_unres = self.unresolved@;
            let ghost old_queue = queue@;
            let ghost old_qi = qi as int;
            let name = queue[qi].clone();
            qi = qi + 1;
            if str_eq(name.as_str(), "entry_point") {
                // the reserved key is never rediscovered
                proof {
                    lemma_queue_step(old_reg, old_unres, old_queue, old_qi, name@);
                }
            } else if self.find_key(name.as_str()).is_some() {
                proof {
                    lemma_queue_step(old_reg, old_unres, old_queue, old_qi, name@);
                }
            } else {
                match Self::find_module(&name, &remaining) {
                    None => {
                        // non-fatal: record the warning, leave the
                        // name external
                        let ghost nm = name@;
                        proof {
                            // the warning is justified: no supplied
                            // file carries this module's file name
                            assert forall|f: int| 0 <= f < files@.len() implies spec_basename(
                                files@[f].0@,
                            ) != nm + ".lua"@ by {
                                assert(file_available(files@, remaining@, self.sources@, f));
                                if spec_basename(files@[f].0@) == nm + ".lua"@ {
                                    if exists|j: int|
                                        0 <= j < remaining@.len() && remaining@[j].0@
                                            == files@[f].0@ && remaining@[j].1@ == files@[f].1@ {
                                        let j = choose|j: int|
                                            0 <= j < remaining@.len() && remaining@[j].0@
                                                == files@[f].0@ && remaining@[j].1@
                                                == files@[f].1@;
                                        assert(spec_basename(remaining@[j].0@) != nm + ".lua"@);
                                        assert(false);
                                    } else {
                                        let m = choose|m: int|
                                            0 <= m < self.sources@.len() && spec_basename(
                                                files@[f].0@,
                                            ) == self.sources@[m].0@ + ".lua"@;
                                        lemma_append_cancel(self.sources@[m].0@, nm, ".lua"@);
                                        assert(has_key(self.sources@, nm));
                                        assert(false);
                                    }
                                }
                            }
                        }
                        self.unresolved.push(name);
                        proof {
                            assert(name_in(self.unresolved@, old_queue[old_qi]@)) by {
                                assert(self.unresolved@[old_unres.len() as int]@
                                    == old_queue[old_qi]@);
                            }
                            lemma_settled_monotone(
                                old_reg,
                                old_unres,
                                self.sources@,
                                self.unresolved@,
                            );
                            lemma_queue_step(
                                self.sources@,
                                self.unresolved@,
                                old_queue,
                                old_qi,
                                nm,
                            );
                            assert forall|u: int, f: int|
                                #![trigger self.unresolved@[u], files@[f]]
                                0 <= u < self.unresolved@.len() && 0 <= f < files@.len() implies
                                spec_basename(files@[f].0@) != self.unresolved@[u]@ + ".lua"@ by {
                                if u < old_unres.len() {
                                    assert(self.unresolved@[u] == old_unres[u]);
                                } else {
                                    assert(self.unresolved@[u]@ == nm);
                                }
                            }
                            assert forall|u: int| 0 <= u < self.unresolved@.len() implies
                            name_required(
                                self.sources@,
                                entry_src.requires.deep_view(),
                                #[trigger] self.unresolved@[u]@,
                            ) by {
                                if u < old_unres.len() {
                                    assert(self.unresolved@[u] == old_unres[u]);
                                } else {
                                    assert(self.unresolved@[u]@ == nm);
                                    assert(old_queue[old_qi]@ == nm);
                                    assert(name_required(
                                        self.sources@,
                                        entry_src.requires.deep_view(),
                                        old_queue[old_qi]@,
                                    ));
                                }
                            }
                        }
                    },
                    Some(fidx) => {
                        let path = remaining[fidx].0.clone();
                        let content = remaining[fidx].1.clone();
                        let ghost old_remaining = remaining@;
                        let _ = remaining.remove(fidx);
                        let mut module = CodeSrcFile::new(path);
                        module.parse(content);
                        let nreq = module.requires.len();
                        let mut dd: usize = 0;
                        while dd < nreq
                            invariant
                                0 <= dd <= nreq == module.requires@.len(),
                                qi as int <= queue@.len(),
                                seq_prefix(old_queue, queue@),
                                queue@.len() == old_queue.len() + dd,
                                forall|j: int|
                                    0 <= j < dd ==> queue@[old_queue.len() + j]@
                                        == module.requires@[j]@,
                            decreases nreq - dd,
                        {
                            queue.push(module.requires[dd].clone());
                            dd = dd + 1;
                        }
                        self.sources.push((name, module));
                        proof {
                            // uniqueness: the new key was no key before
                            assert forall|a: int, b: int|
                                0 <= a < b < self.sources@.len() implies self.sources@[a].0@
                                != self.sources@[b].0@ by {
                                if b == self.sources@.len() - 1 {
                                    assert(!has_key(old_reg, name@));
                                }
                            }
                            lemma_settled_monotone(
                                old_reg,
                                old_unres,
                                self.sources@,
                                self.unresolved@,
                            );
                            // the fresh module's requires are queued
                            assert forall|d: int|
                                0 <= d < module.requires@.len() implies queue_tail_has(
                                queue@,
                                qi as int,
                                #[trigger] module.requires@[d]@,
                            ) by {
                                assert(queue@[old_queue.len() + d]@ == module.requires@[d]@);
                            }
                            // provenance of the fresh module
                            let fr = choose|f: int|
                                0 <= f < files@.len() && files@[f].0@ == old_remaining[fidx as int].0@
                                    && files@[f].1@ == old_remaining[fidx as int].1@;
                            assert(module_from_files(files@, name@, module)) by {
                                assert(spec_basename(files@[fr].0@) == name@ + ".lua"@);
                            }
                            // remaining stays a sub-list of the files
                            assert forall|j: int|
                                0 <= j < remaining@.len() implies (exists|f: int|
                                0 <= f < files@.len() && files@[f].0@
                                    == (#[trigger] remaining@[j].0@) && files@[f].1@
                                    == remaining@[j].1@) by {
                                if j < fidx as int {
                                    assert(remaining@[j] == old_remaining[j]);
                                } else {
                                    assert(remaining@[j] == old_remaining[j + 1]);
                                }
                            }
                            assert(has_key(self.sources@, name@)) by {
                                assert(self.sources@[self.sources@.len() - 1].0@ == name@);
                            }
                            assert(queue@[old_qi] == old_queue[old_qi]);
                            lemma_queue_step(
                                self.sources@,
                                self.unresolved@,
                                queue@,
                                old_qi,
                                name@,
                            );
                            // every file is still available or consumed
                            // by the module of its name
                            assert forall|f: int| 0 <= f < files@.len() implies
                            #[trigger] file_available(files@, remaining@, self.sources@, f) by {
                                assert(file_available(files@, old_remaining, old_reg, f));
                                if exists|j: int|
                                    0 <= j < old_remaining.len() && old_remaining[j].0@
                                        == files@[f].0@ && old_remaining[j].1@ == files@[f].1@ {
                                    let j = choose|j: int|
                                        0 <= j < old_remaining.len() && old_remaining[j].0@
                                            == files@[f].0@ && old_remaining[j].1@
                                            == files@[f].1@;
                                    if j == fidx as int {
                                        assert(spec_basename(old_remaining[fidx as int].0@)
                                            == name@ + ".lua"@);
                                        assert(self.sources@[self.sources@.len() - 1].0@
                                            == name@);
                                    } else if j < fidx as int {
                                        assert(remaining@[j] == old_remaining[j]);
                                    } else {
                                        assert(remaining@[j - 1] == old_remaining[j]);
                                    }
                                } else {
                                    let m = choose|m: int|
                                        0 <= m < old_reg.len() && spec_basename(files@[f].0@)
                                            == old_reg[m].0@ + ".lua"@;
                                    assert(self.sources@[m] == old_reg[m]);
                                }
                            }
                            // work-list and registry provenance
                            lemma_required_monotone(
                                old_reg,
                                self.sources@,
                                entry_src.requires.deep_view(),
                            );
                            assert forall|j: int| 0 <= j < queue@.len() implies name_required(
                                self.sources@,
                                entry_src.requires.deep_view(),
                                #[trigger] queue@[j]@,
                            ) by {
                                if j < old_queue.len() {
                                    assert(queue@[j] == old_queue[j]);
                                    assert(name_required(
                                        old_reg,
                                        entry_src.requires.deep_view(),
                                        queue@[j]@,
                                    ));
                                } else {
                                    assert(queue@[j]@ == module.requires@[j - old_queue.len()]@);
                                    assert(self.sources@[self.sources@.len() - 1].1 == module);
                                }
                            }
                            assert forall|m: int| 0 <= m < self.sources@.len() implies
                            name_required(
                                self.sources@,
                                entry_src.requires.deep_view(),
                                #[trigger] self.sources@[m].0@,
                            ) by {
                                if m < old_reg.len() {
                                    assert(self.sources@[m] == old_reg[m]);
                                    assert(name_required(
                                        old_reg,
                                        entry_src.requires.deep_view(),
                                        old_reg[m].0@,
                                    ));
                                } else {
                                    assert(self.sources@[m].0@ == name@);
                                    assert(old_queue[old_qi]@ == name@);
                                    assert(name_required(
                                        old_reg,
                                        entry_src.requires.deep_view(),
                                        old_queue[old_qi]@,
                                    ));
                                }
                            }
                            assert forall|u: int| 0 <= u < self.unresolved@.len() implies
                            name_required(
                                self.sources@,
                                entry_src.requires.deep_view(),
                                #[trigger] self.unresolved@[u]@,
                            ) by {
                                assert(name_required(
                                    old_reg,
                                    entry_src.requires.deep_view(),
                                    self.unresolved@[u]@,
                                ));
                            }
                        }
                    },
                }
            }
        }
        // all names processed: register the entry point last
        let entry_key = String::from_str("entry_point");
        let ghost pre_entry_reg = self.sources@;
        self.sources.push((entry_key, entry_src));
        proof {
            assert forall|a: int, b: int|
                0 <= a < b < self.sources@.len() implies self.sources@[a].0@
                != self.sources@[b].0@ by {
                if b == self.sources@.len() - 1 {
                    assert(pre_entry_reg[a].0@ != "entry_point"@);
                }
            }
            assert(has_key(self.sources@, "entry_point"@)) by {
                assert(self.sources@[self.sources@.len() - 1].0@ == "entry_point"@);
            }
            lemma_settled_monotone(pre_entry_reg, self.unresolved@, self.sources@, self.unresolved@);
            assert forall|m: int, d: int|
                0 <= m < self.sources@.len() && 0 <= d < self.sources@[m].1.requires@.len() implies
                name_settled(
                self.sources@,
                self.unresolved@,
                #[trigger] self.sources@[m].1.requires@[d]@,
            ) by {
                let nm = self.sources@[m].1.requires@[d]@;
                if m < pre_entry_reg.len() {
                    assert(name_pending_ok(pre_entry_reg, self.unresolved@, queue@, qi as int, nm));
                } else {
                    assert(self.sources@[m].1 == entry_src);
                    assert(entry_src.requires@[d]@ == nm);
                    assert(name_pending_ok(pre_entry_reg, self.unresolved@, queue@, qi as int, nm));
                }
                if queue_tail_has(queue@, qi as int, nm) {
                    let j = choose|j: int| qi as int <= j < queue@.len() && queue@[j]@ == nm;
                    assert(false);
                }
                if nm == "entry_point"@ {
                    assert(has_key(self.sources@, nm));
                }
            }
            assert(entry_registered(files@, entry_path@, self.sources@)) by {
                assert(self.sources@[self.sources@.len() - 1].0@ == "entry_point"@);
            }
            // every warning stems from a real require
            assert(unresolved_required(self.sources@, self.unresolved@)) by {
                assert forall|u: int| 0 <= u < self.unresolved@.len() implies (exists|
                    m2: int,
                    d: int,
                |
                    0 <= m2 < self.sources@.len() && 0 <= d < self.sources@[m2].1.requires@.len()
                        && self.sources@[m2].1.requires@[d]@ == (
                    #[trigger] self.unresolved@[u]@)) by {
                    let nm = self.unresolved@[u]@;
                    assert(name_required(pre_entry_reg, entry_src.requires.deep_view(), nm));
                    if entry_src.requires.deep_view().contains(nm) {
                        let d = choose|d: int|
                            0 <= d < entry_src.requires.deep_view().len()
                                && entry_src.requires.deep_view()[d] == nm;
                        let e = self.sources@.len() - 1;
                        assert(self.sources@[e].1 == entry_src);
                        assert(entry_src.requires.deep_view()[d] == entry_src.requires@[d]@);
                        assert(self.sources@[e].1.requires@[d]@ == nm);
                    } else {
                        let (m2, d) = choose|m2: int, d: int|
                            0 <= m2 < pre_entry_reg.len() && 0 <= d
                                < pre_entry_reg[m2].1.requires@.len()
                                && pre_entry_reg[m2].1.requires@[d]@ == nm;
                        assert(self.sources@[m2] == pre_entry_reg[m2]);
                    }
                }
            }
            // the registry holds only modules that discovery reached
            assert(registry_reachable(self.sources@)) by {
                assert forall|m: int|
                    0 <= m < self.sources@.len() && (#[trigger] self.sources@[m].0@)
                        != "entry_point"@ implies (exists|m2: int, d: int|
                    0 <= m2 < self.sources@.len() && 0 <= d < self.sources@[m2].1.requires@.len()
                        && self.sources@[m2].1.requires@[d]@ == self.sources@[m].0@) by {
                    let nm = self.sources@[m].0@;
                    assert(m < pre_entry_reg.len());
                    assert(self.sources@[m] == pre_entry_reg[m]);
                    assert(name_required(pre_entry_reg, entry_src.requires.deep_view(), nm));
                    if entry_src.requires.deep_view().contains(nm) {
                        let d = choose|d: int|
                            0 <= d < entry_src.requires.deep_view().len()
                                && entry_src.requires.deep_view()[d] == nm;
                        let e = self.sources@.len() - 1;
                        assert(self.sources@[e].1 == entry_src);
                        assert(entry_src.requires.deep_view()[d] == entry_src.requires@[d]@);
                        assert(self.sources@[e].1.requires@[d]@ == nm);
                    } else {
                        let (m2, d) = choose|m2: int, d: int|
                            0 <= m2 < pre_entry_reg.len() && 0 <= d
                                < pre_entry_reg[m2].1.requires@.len()
                                && pre_entry_reg[m2].1.requires@[d]@ == nm;
                        assert(self.sources@[m2] == pre_entry_reg[m2]);
                    }
                }
            }
        }
        let order = match self.sort_sources() {
            Ok(o) => o,
            Err(stuck) => {
                return Err(BundleError::Cycle(stuck));
            },
        };
        let out = self.emit_bundle(&order);
        proof {
            let ghost ov = order@;
            assert(out@ == spec_bundle(self.sources@, ov));
        }
        Ok(out)
    }
}

/// Settledness of a name survives growing the registry and the
/// unresolved list.
proof fn lemma_settled_monotone(
    reg1: Seq<(String, CodeSrcFile)>,
    unres1: Seq<String>,
    reg2: Seq<(String, CodeSrcFile)>,
    unres2: Seq<String>,
)
    requires
        reg1.len() <= reg2.len(),
        forall|k: int| 0 <= k < reg1.len() ==> reg2[k] == reg1[k],
        unres1.len() <= unres2.len(),
        forall|k: int| 0 <= k < unres1.len() ==> unres2[k] == unres1[k],
    ensures
        forall|nm: Seq<char>| name_settled(reg1, unres1, nm) ==> #[trigger] name_settled(
            reg2,
            unres2,
            nm,
        ),
{
    assert forall|nm: Seq<char>| name_settled(reg1, unres1, nm) implies #[trigger] name_settled(
        reg2,
        unres2,
        nm,
    ) by {
        if has_key(reg1, nm) {
            let k = choose|k: int| 0 <= k < reg1.len() && reg1[k].0@ == nm;
            assert(reg2[k].0@ == nm);
        } else {
            let j = choose|j: int| 0 <= j < unres1.len() && unres1[j]@ == nm;
            assert(unres2[j]@ == nm);
        }
    }
}

/// After processing the head of the work-list tail, every name that
/// was pending is pending still: the head itself must have become
/// settled (or be the reserved name), and the rest of the tail is
/// unchanged.
proof fn lemma_queue_step(
    reg: Seq<(String, CodeSrcFile)>,
    unres: Seq<String>,
    queue: Seq<String>,
    qi: int,
    head: Seq<char>,
)
    requires
        0 <= qi < queue.len(),
        queue[qi]@ == head,
        name_settled(reg, unres, head) || head == "entry_point"@,
    ensures
        forall|nm: Seq<char>| queue_tail_has(queue, qi, nm) ==> #[trigger] name_pending_ok(
            reg,
            unres,
            queue,
            qi + 1,
            nm,
        ),
{
    assert forall|nm: Seq<char>| queue_tail_has(queue, qi, nm) implies #[trigger] name_pending_ok(
        reg,
        unres,
        queue,
        qi + 1,
        nm,
    ) by {
        let j = choose|j: int| qi <= j < queue.len() && queue[j]@ == nm;
        if j == qi {
            assert(nm == head);
        } else {
            assert(qi + 1 <= j < queue.len() && queue[j]@ == nm);
        }
    }
}

} // verus!
