//! The retirement candidate resolver: the policy that decides which stored
//! artifacts are obsolete.
//!
//! Three rules contribute candidates. Superseded-version selection retires,
//! within each (package name, repository) partition of the catalog, every row
//! but the retained newest one. Out-of-tree selection retires stable-channel
//! artifacts whose package name has left the in-tree registry, with
//! debug-symbol and kernel/bootloader exemptions. Kernel-variant selection
//! retires per-version kernel artifacts whose significant version no longer
//! matches the published metapackage of the same variant, over a set of
//! variants discovered from the catalog at resolution time.

use vstd::prelude::*;
use vstd::string::StringExecFns;
use crate::artifact::CatalogEntry;
use crate::artifact::PackageMeta;
use crate::artifact::RetireReason;
use crate::artifact::RetirementCandidate;
use crate::strutil::seq_ends_with;
use crate::strutil::seq_starts_with;
use crate::strutil::str_ends_with;
use crate::strutil::str_eq;
use crate::strutil::str_starts_with;
use crate::strutil::views_of;

verus! {

/// Rows compete for retirement within the same (package name, repository)
/// partition.
pub open spec fn same_partition(a: CatalogEntry, b: CatalogEntry) -> bool {
    a.meta.package@ == b.meta.package@ && a.meta.repo@ == b.meta.repo@
}

/// Row `i` is the retained (surviving) row of its partition: no partition
/// member ranks above it, and no earlier partition member ranks equal to it.
/// Every other partition member is superseded. With strictly equal version
/// keys the earliest row survives, so repeated resolutions of the same
/// catalog retain the same row.
pub open spec fn is_retained(cat: Seq<CatalogEntry>, i: int) -> bool {
    &&& 0 <= i < cat.len()
    &&& forall|j: int|
        0 <= j < cat.len() && same_partition(cat[i], #[trigger] cat[j]) ==> cat[j].vercomp
            <= cat[i].vercomp
    &&& forall|j: int|
        0 <= j < i && same_partition(cat[i], #[trigger] cat[j]) ==> cat[j].vercomp
            < cat[i].vercomp
}

/// The superseded rows among the first `k` catalog rows, in catalog order.
pub open spec fn superseded_prefix(cat: Seq<CatalogEntry>, k: int) -> Seq<CatalogEntry>
    decreases k when 0 <= k <= cat.len()
{
    if k <= 0 {
        Seq::empty()
    } else if is_retained(cat, k - 1) {
        superseded_prefix(cat, k - 1)
    } else {
        superseded_prefix(cat, k - 1).push(cat[k - 1])
    }
}

/// Every catalog row that is not the retained row of its partition, in
/// catalog order.
pub open spec fn superseded_selection(cat: Seq<CatalogEntry>) -> Seq<CatalogEntry> {
    superseded_prefix(cat, cat.len() as int)
}

/// Catalog entries paired with the reason for their selection.
pub open spec fn with_reason(es: Seq<CatalogEntry>, r: RetireReason) -> Seq<RetirementCandidate> {
    es.map_values(|e: CatalogEntry| RetirementCandidate { meta: e.meta, reason: r })
}

fn same_partition_exec(a: &CatalogEntry, b: &CatalogEntry) -> (r: bool)
    ensures
        r == same_partition(*a, *b),
{
    str_eq(a.meta.package.as_str(), b.meta.package.as_str()) && str_eq(
        a.meta.repo.as_str(),
        b.meta.repo.as_str(),
    )
}

fn is_retained_exec(catalog: &Vec<CatalogEntry>, k: usize) -> (r: bool)
    requires
        k < catalog@.len(),
    ensures
        r == is_retained(catalog@, k as int),
{
    let n = catalog.len();
    let mut j: usize = 0;
    while j < n
        invariant
            n == catalog@.len(),
            k < n,
            j <= n,
            forall|m: int|
                0 <= m < j && same_partition(catalog@[k as int], #[trigger] catalog@[m])
                    ==> catalog@[m].vercomp <= catalog@[k as int].vercomp,
            forall|m: int|
                0 <= m < j && m < k && same_partition(catalog@[k as int], #[trigger] catalog@[m])
                    ==> catalog@[m].vercomp < catalog@[k as int].vercomp,
        decreases n - j,
    {
        if same_partition_exec(&catalog[k], &catalog[j]) {
            if catalog[j].vercomp > catalog[k].vercomp {
                return false;
            }
            if j < k && catalog[j].vercomp >= catalog[k].vercomp {
                return false;
            }
        }
        j = j + 1;
    }
    true
}

/// Superseded-version selection: within each (package name, repository)
/// partition, every row except the retained newest one becomes a candidate.
pub fn superseded_candidates(catalog: &Vec<CatalogEntry>) -> (out: Vec<RetirementCandidate>)
    ensures
        out@ == with_reason(superseded_selection(catalog@), RetireReason::SupersededVersion),
{
    let n = catalog.len();
    let mut out: Vec<RetirementCandidate> = Vec::new();
    let mut k: usize = 0;
    while k < n
        invariant
            n == catalog@.len(),
            k <= n,
            out@ == with_reason(superseded_prefix(catalog@, k as int), RetireReason::SupersededVersion),
        decreases n - k,
    {
        if !is_retained_exec(catalog, k) {
            let cand = RetirementCandidate {
                meta: catalog[k].meta.duplicate(),
                reason: RetireReason::SupersededVersion,
            };
            out.push(cand);
            proof {
                assert(superseded_prefix(catalog@, k + 1) == superseded_prefix(
                    catalog@,
                    k as int,
                ).push(catalog@[k as int]));
                assert(with_reason(superseded_prefix(catalog@, k + 1), RetireReason::SupersededVersion) =~= with_reason(
                    superseded_prefix(catalog@, k as int),
                    RetireReason::SupersededVersion,
                ).push(RetirementCandidate { meta: catalog@[k as int].meta, reason: RetireReason::SupersededVersion }));
            }
        } else {
            proof {
                assert(superseded_prefix(catalog@, k + 1) == superseded_prefix(
                    catalog@,
                    k as int,
                ));
            }
        }
        k = k + 1;
    }
    out
}

/// The package name has an entry in the in-tree registry.
pub open spec fn in_registry(reg: Seq<Seq<char>>, name: Seq<char>) -> bool {
    exists|i: int| 0 <= i < reg.len() && reg[i] == name
}

/// The name starts with one of the given prefixes.
pub open spec fn has_prefix_in(name: Seq<char>, prefixes: Seq<Seq<char>>) -> bool {
    exists|i: int| 0 <= i < prefixes.len() && seq_starts_with(name, #[trigger] prefixes[i])
}

/// Out-of-tree selection takes an artifact whose package name has no entry in
/// the in-tree registry, whose name is neither a debug-symbol package nor one
/// of the exempted kernel/bootloader families, and which sits in a stable
/// repository channel.
pub open spec fn out_of_tree_selected(
    e: CatalogEntry,
    reg: Seq<Seq<char>>,
    prefixes: Seq<Seq<char>>,
) -> bool {
    &&& !in_registry(reg, e.meta.package@)
    &&& !seq_ends_with(e.meta.package@, "-dbg"@)
    &&& !has_prefix_in(e.meta.package@, prefixes)
    &&& seq_ends_with(e.meta.repo@, "/stable"@)
}

/// The out-of-tree rows among the first `k` catalog rows, in catalog order.
pub open spec fn out_of_tree_prefix(
    cat: Seq<CatalogEntry>,
    reg: Seq<Seq<char>>,
    prefixes: Seq<Seq<char>>,
    k: int,
) -> Seq<CatalogEntry>
    decreases k when 0 <= k <= cat.len()
{
    if k <= 0 {
        Seq::empty()
    } else if out_of_tree_selected(cat[k - 1], reg, prefixes) {
        out_of_tree_prefix(cat, reg, prefixes, k - 1).push(cat[k - 1])
    } else {
        out_of_tree_prefix(cat, reg, prefixes, k - 1)
    }
}

/// Every out-of-tree catalog row, in catalog order.
pub open spec fn out_of_tree_selection(
    cat: Seq<CatalogEntry>,
    reg: Seq<Seq<char>>,
    prefixes: Seq<Seq<char>>,
) -> Seq<CatalogEntry> {
    out_of_tree_prefix(cat, reg, prefixes, cat.len() as int)
}

fn in_registry_exec(registry: &Vec<String>, name: &str) -> (r: bool)
    ensures
        r == in_registry(views_of(registry@), name@),
{
    let n = registry.len();
    let mut i: usize = 0;
    while i < n
        invariant
            n == registry@.len(),
            i <= n,
            forall|m: int| 0 <= m < i ==> #[trigger] registry@[m]@ != name@,
        decreases n - i,
    {
        if str_eq(registry[i].as_str(), name) {
            proof {
                assert(views_of(registry@)[i as int] == name@);
            }
            return true;
        }
        i = i + 1;
    }
    proof {
        assert(!in_registry(views_of(registry@), name@)) by {
            if in_registry(views_of(registry@), name@) {
                let p = choose|p: int|
                    0 <= p < views_of(registry@).len() && views_of(registry@)[p] == name@;
                assert(registry@[p]@ == name@);
            }
        }
    }
    false
}

fn has_prefix_in_exec(name: &str, prefixes: &Vec<String>) -> (r: bool)
    ensures
        r == has_prefix_in(name@, views_of(prefixes@)),
{
    let n = prefixes.len();
    let mut i: usize = 0;
    while i < n
        invariant
            n == prefixes@.len(),
            i <= n,
            forall|m: int| 0 <= m < i ==> !seq_starts_with(name@, #[trigger] prefixes@[m]@),
        decreases n - i,
    {
        if str_starts_with(name, prefixes[i].as_str()) {
            proof {
                assert(views_of(prefixes@)[i as int] == prefixes@[i as int]@);
            }
            return true;
        }
        i = i + 1;
    }
    proof {
        assert(!has_prefix_in(name@, views_of(prefixes@))) by {
            if has_prefix_in(name@, views_of(prefixes@)) {
                let p = choose|p: int|
                    0 <= p < views_of(prefixes@).len() && seq_starts_with(
                        name@,
                        #[trigger] views_of(prefixes@)[p],
                    );
                assert(seq_starts_with(name@, prefixes@[p]@));
            }
        }
    }
    false
}

fn out_of_tree_selected_exec(
    e: &CatalogEntry,
    registry: &Vec<String>,
    prefixes: &Vec<String>,
) -> (r: bool)
    ensures
        r == out_of_tree_selected(*e, views_of(registry@), views_of(prefixes@)),
{
    if in_registry_exec(registry, e.meta.package.as_str()) {
        return false;
    }
    if str_ends_with(e.meta.package.as_str(), "-dbg") {
        return false;
    }
    if has_prefix_in_exec(e.meta.package.as_str(), prefixes) {
        return false;
    }
    str_ends_with(e.meta.repo.as_str(), "/stable")
}

/// The package-name prefixes that out-of-tree retirement leaves alone:
/// kernel artifacts, kernel metapackages and the bootloader, which are
/// governed by the kernel-variant rule instead.
pub fn default_exempt_prefixes() -> (out: Vec<String>)
    ensures
        out@.len() == 3,
        out@[0]@ == "linux-kernel-"@,
        out@[1]@ == "linux+kernel+"@,
        out@[2]@ == "u-boot"@,
{
    let mut out: Vec<String> = Vec::new();
    out.push(String::from_str("linux-kernel-"));
    out.push(String::from_str("linux+kernel+"));
    out.push(String::from_str("u-boot"));
    out
}

/// Out-of-tree selection: every stable-channel artifact whose package name
/// has left the in-tree registry and is not otherwise exempted becomes a
/// candidate.
pub fn out_of_tree_candidates(
    catalog: &Vec<CatalogEntry>,
    registry: &Vec<String>,
    exempt_prefixes: &Vec<String>,
) -> (out: Vec<RetirementCandidate>)
    ensures
        out@ == with_reason(
            out_of_tree_selection(catalog@, views_of(registry@), views_of(exempt_prefixes@)),
            RetireReason::OutOfTree,
        ),
{
    let n = catalog.len();
    let mut out: Vec<RetirementCandidate> = Vec::new();
    let mut k: usize = 0;
    while k < n
        invariant
            n == catalog@.len(),
            k <= n,
            out@ == with_reason(
                out_of_tree_prefix(
                    catalog@,
                    views_of(registry@),
                    views_of(exempt_prefixes@),
                    k as int,
                ),
                RetireReason::OutOfTree,
            ),
        decreases n - k,
    {
        if out_of_tree_selected_exec(&catalog[k], registry, exempt_prefixes) {
            let cand = RetirementCandidate {
                meta: catalog[k].meta.duplicate(),
                reason: RetireReason::OutOfTree,
            };
            out.push(cand);
            proof {
                assert(with_reason(
                    out_of_tree_prefix(
                        catalog@,
                        views_of(registry@),
                        views_of(exempt_prefixes@),
                        k + 1,
                    ),
                    RetireReason::OutOfTree,
                ) =~= with_reason(
                    out_of_tree_prefix(
                        catalog@,
                        views_of(registry@),
                        views_of(exempt_prefixes@),
                        k as int,
                    ),
                    RetireReason::OutOfTree,
                ).push(
                    RetirementCandidate {
                        meta: catalog@[k as int].meta,
                        reason: RetireReason::OutOfTree,
                    },
                ));
            }
        }
        k = k + 1;
    }
    out
}

/// Out-of-tree selection never selects a package present in the in-tree
/// registry, never a name ending in the debug-symbol suffix, never a name
/// carrying an exempted prefix, and nothing outside a stable channel.
pub proof fn lemma_out_of_tree_never_selects_protected(
    cat: Seq<CatalogEntry>,
    reg: Seq<Seq<char>>,
    prefixes: Seq<Seq<char>>,
)
    ensures
        forall|p: int|
            0 <= p < out_of_tree_selection(cat, reg, prefixes).len()
                ==> out_of_tree_selected(
                #[trigger] out_of_tree_selection(cat, reg, prefixes)[p],
                reg,
                prefixes,
            ),
{
    lemma_out_of_tree_prefix_sound(cat, reg, prefixes, cat.len() as int);
}

proof fn lemma_out_of_tree_prefix_sound(
    cat: Seq<CatalogEntry>,
    reg: Seq<Seq<char>>,
    prefixes: Seq<Seq<char>>,
    k: int,
)
    requires
        0 <= k <= cat.len(),
    ensures
        forall|p: int|
            0 <= p < out_of_tree_prefix(cat, reg, prefixes, k).len()
                ==> out_of_tree_selected(
                #[trigger] out_of_tree_prefix(cat, reg, prefixes, k)[p],
                reg,
                prefixes,
            ),
    decreases k,
{
    if k > 0 {
        lemma_out_of_tree_prefix_sound(cat, reg, prefixes, k - 1);
        let pre = out_of_tree_prefix(cat, reg, prefixes, k - 1);
        let cur = out_of_tree_prefix(cat, reg, prefixes, k);
        if out_of_tree_selected(cat[k - 1], reg, prefixes) {
            assert(cur == pre.push(cat[k - 1]));
            assert forall|p: int| 0 <= p < cur.len() implies out_of_tree_selected(
                cur[p],
                reg,
                prefixes,
            ) by {
                if p < pre.len() {
                    assert(cur[p] == pre[p]);
                } else {
                    assert(cur[p] == cat[k - 1]);
                }
            }
        } else {
            assert(cur == pre);
        }
    }
}

/// An earlier candidate among the first `k` names the same physical file as
/// candidate `k`.
pub open spec fn dup_of_earlier(s: Seq<RetirementCandidate>, k: int) -> bool {
    exists|j: int| 0 <= j < k && (#[trigger] s[j]).meta.same_file(s[k].meta)
}

/// The candidates among the first `k` whose physical file no earlier
/// candidate names, in order.
pub open spec fn dedup_prefix(s: Seq<RetirementCandidate>, k: int) -> Seq<RetirementCandidate>
    decreases k when 0 <= k <= s.len()
{
    if k <= 0 {
        Seq::empty()
    } else if dup_of_earlier(s, k - 1) {
        dedup_prefix(s, k - 1)
    } else {
        dedup_prefix(s, k - 1).push(s[k - 1])
    }
}

/// The candidate list with every later duplicate of a physical file removed:
/// each file is retired at most once, under the reason that listed it first.
pub open spec fn deduped(s: Seq<RetirementCandidate>) -> Seq<RetirementCandidate> {
    dedup_prefix(s, s.len() as int)
}

/// Some listed candidate names the same physical file as `m`.
pub open spec fn names_file(out: Seq<RetirementCandidate>, m: PackageMeta) -> bool {
    exists|p: int| 0 <= p < out.len() && (#[trigger] out[p]).meta.same_file(m)
}

proof fn lemma_dedup_named_implies_input(s: Seq<RetirementCandidate>, k: int, m: PackageMeta)
    requires
        0 <= k <= s.len(),
        names_file(dedup_prefix(s, k), m),
    ensures
        exists|j: int| 0 <= j < k && (#[trigger] s[j]).meta.same_file(m),
    decreases k,
{
    let cur = dedup_prefix(s, k);
    let p = choose|p: int| 0 <= p < cur.len() && (#[trigger] cur[p]).meta.same_file(m);
    let pre = dedup_prefix(s, k - 1);
    if !dup_of_earlier(s, k - 1) && p == pre.len() {
        assert(cur[p] == s[k - 1]);
        assert(s[k - 1].meta.same_file(m));
    } else {
        assert(cur[p] == pre[p]);
        assert(names_file(pre, m));
        lemma_dedup_named_implies_input(s, k - 1, m);
    }
}

proof fn lemma_dedup_prefix_unique(s: Seq<RetirementCandidate>, k: int)
    requires
        0 <= k <= s.len(),
    ensures
        forall|p: int, q: int|
            #![trigger dedup_prefix(s, k)[p], dedup_prefix(s, k)[q]]
            0 <= p < q < dedup_prefix(s, k).len() ==> !dedup_prefix(s, k)[p].meta.same_file(
                dedup_prefix(s, k)[q].meta,
            ),
    decreases k,
{
    if k > 0 {
        lemma_dedup_prefix_unique(s, k - 1);
        let pre = dedup_prefix(s, k - 1);
        let cur = dedup_prefix(s, k);
        if !dup_of_earlier(s, k - 1) {
            assert(cur == pre.push(s[k - 1]));
            assert forall|p: int, q: int|
                #![trigger cur[p], cur[q]]
                0 <= p < q < cur.len() implies !cur[p].meta.same_file(cur[q].meta) by {
                assert(cur[p] == pre[p]);
                if q < pre.len() {
                    assert(cur[q] == pre[q]);
                } else {
                    assert(cur[q] == s[k - 1]);
                    if pre[p].meta.same_file(s[k - 1].meta) {
                        assert(names_file(pre, s[k - 1].meta));
                        lemma_dedup_named_implies_input(s, k - 1, s[k - 1].meta);
                        assert(dup_of_earlier(s, k - 1));
                    }
                }
            }
        }
    }
}

proof fn lemma_dedup_prefix_complete(s: Seq<RetirementCandidate>, k: int)
    requires
        0 <= k <= s.len(),
    ensures
        forall|j: int| 0 <= j < k ==> names_file(dedup_prefix(s, k), (#[trigger] s[j]).meta),
    decreases k,
{
    if k > 0 {
        lemma_dedup_prefix_complete(s, k - 1);
        let pre = dedup_prefix(s, k - 1);
        let cur = dedup_prefix(s, k);
        assert forall|j: int| 0 <= j < k implies names_file(cur, (#[trigger] s[j]).meta) by {
            if j < k - 1 {
                let p = choose|p: int|
                    0 <= p < pre.len() && (#[trigger] pre[p]).meta.same_file(s[j].meta);
                assert(cur[p] == pre[p]);
                assert(cur[p].meta.same_file(s[j].meta));
            } else {
                if dup_of_earlier(s, k - 1) {
                    let j0 = choose|j0: int|
                        0 <= j0 < k - 1 && (#[trigger] s[j0]).meta.same_file(s[k - 1].meta);
                    let p = choose|p: int|
                        0 <= p < pre.len() && (#[trigger] pre[p]).meta.same_file(s[j0].meta);
                    assert(cur[p] == pre[p]);
                    assert(cur[p].meta.same_file(s[k - 1].meta));
                } else {
                    assert(cur[pre.len() as int] == s[k - 1]);
                    assert(cur[pre.len() as int].meta.same_file(s[k - 1].meta));
                }
            }
        }
    }
}

/// Retiring each physical file once: the deduplicated candidate list names
/// no file twice, and still names every file the raw list named.
pub proof fn lemma_deduped_exact(s: Seq<RetirementCandidate>)
    ensures
        forall|p: int, q: int|
            #![trigger deduped(s)[p], deduped(s)[q]]
            0 <= p < q < deduped(s).len() ==> !deduped(s)[p].meta.same_file(deduped(s)[q].meta),
        forall|j: int| 0 <= j < s.len() ==> names_file(deduped(s), (#[trigger] s[j]).meta),
{
    lemma_dedup_prefix_unique(s, s.len() as int);
    lemma_dedup_prefix_complete(s, s.len() as int);
}

fn dup_of_earlier_exec(cands: &Vec<RetirementCandidate>, k: usize) -> (r: bool)
    requires
        k < cands@.len(),
    ensures
        r == dup_of_earlier(cands@, k as int),
{
    let mut j: usize = 0;
    while j < k
        invariant
            k < cands@.len(),
            j <= k,
            forall|m: int|
                0 <= m < j ==> !(#[trigger] cands@[m]).meta.same_file(cands@[k as int].meta),
        decreases k - j,
    {
        if str_eq(cands[j].meta.sha256.as_str(), cands[k].meta.sha256.as_str()) && str_eq(
            cands[j].meta.filename.as_str(),
            cands[k].meta.filename.as_str(),
        ) {
            return true;
        }
        j = j + 1;
    }
    false
}

/// Removes every candidate whose physical file an earlier candidate already
/// names.
pub fn dedup_candidates(cands: &Vec<RetirementCandidate>) -> (out: Vec<RetirementCandidate>)
    ensures
        out@ == deduped(cands@),
{
    let n = cands.len();
    let mut out: Vec<RetirementCandidate> = Vec::new();
    let mut k: usize = 0;
    while k < n
        invariant
            n == cands@.len(),
            k <= n,
            out@ == dedup_prefix(cands@, k as int),
        decreases n - k,
    {
        if !dup_of_earlier_exec(cands, k) {
            out.push(cands[k].duplicate());
        }
        k = k + 1;
    }
    out
}

/// The exemption prefixes as character sequences, for use in contracts.
pub open spec fn default_exemptions() -> Seq<Seq<char>> {
    seq!["linux-kernel-"@, "linux+kernel+"@, "u-boot"@]
}

/// The resolver's combined output: out-of-tree candidates when enabled, then
/// superseded-version candidates, then outdated kernel candidates when
/// enabled, with later duplicates of a physical file removed.
pub open spec fn resolved_selection(
    cat: Seq<CatalogEntry>,
    reg: Seq<Seq<char>>,
    prefixes: Seq<Seq<char>>,
    oot: bool,
    kern: bool,
) -> Seq<RetirementCandidate> {
    let oot_part = if oot {
        with_reason(out_of_tree_selection(cat, reg, prefixes), RetireReason::OutOfTree)
    } else {
        Seq::empty()
    };
    let kern_part = if kern {
        with_reason(crate::kernel::kernel_selection(cat), RetireReason::OutdatedKernelVariant)
    } else {
        Seq::empty()
    };
    deduped(
        oot_part + with_reason(superseded_selection(cat), RetireReason::SupersededVersion)
            + kern_part,
    )
}

/// Resolves the full, deduplicated, ordered set of retirement candidates.
/// Read-only: the catalog and registry are only consulted.
pub fn resolve_candidates(
    catalog: &Vec<CatalogEntry>,
    registry: &Vec<String>,
    exempt_prefixes: &Vec<String>,
    oot: bool,
    kern: bool,
) -> (out: Vec<RetirementCandidate>)
    ensures
        out@ == resolved_selection(
            catalog@,
            views_of(registry@),
            views_of(exempt_prefixes@),
            oot,
            kern,
        ),
{
    let mut all: Vec<RetirementCandidate> = Vec::new();
    if oot {
        let mut o = out_of_tree_candidates(catalog, registry, exempt_prefixes);
        all.append(&mut o);
    }
    let mut sup = superseded_candidates(catalog);
    all.append(&mut sup);
    if kern {
        let mut kc = crate::kernel::determine_retired_kernel_packages(catalog);
        all.append(&mut kc);
    }
    proof {
        let oot_part = if oot {
            with_reason(
                out_of_tree_selection(catalog@, views_of(registry@), views_of(exempt_prefixes@)),
                RetireReason::OutOfTree,
            )
        } else {
            Seq::empty()
        };
        let kern_part = if kern {
            with_reason(
                crate::kernel::kernel_selection(catalog@),
                RetireReason::OutdatedKernelVariant,
            )
        } else {
            Seq::empty()
        };
        assert(all@ =~= oot_part + with_reason(
            superseded_selection(catalog@),
            RetireReason::SupersededVersion,
        ) + kern_part);
    }
    dedup_candidates(&all)
}

/// The standard retirement query, as the pool operator invokes it:
/// superseded versions always, out-of-tree packages when requested, with the
/// default exemption list. Kernel retirement is a separate query.
pub fn determine_retired_packages(
    catalog: &Vec<CatalogEntry>,
    registry: &Vec<String>,
    oot: bool,
) -> (out: Vec<RetirementCandidate>)
    ensures
        out@ == resolved_selection(
            catalog@,
            views_of(registry@),
            default_exemptions(),
            oot,
            false,
        ),
{
    let prefixes = default_exempt_prefixes();
    proof {
        assert(views_of(prefixes@) =~= default_exemptions());
    }
    resolve_candidates(catalog, registry, &prefixes, oot, false)
}

/// The catalog indices of one (package name, repository) partition.
pub open spec fn partition_indices(cat: Seq<CatalogEntry>, pkg: Seq<char>, repo: Seq<char>) -> Set<
    int,
> {
    Set::new(
        |i: int|
            0 <= i < cat.len() && cat[i].meta.package@ == pkg && cat[i].meta.repo@ == repo,
    )
}

/// The index of the partition's retained row among the first `k` rows: the
/// earliest row attaining the partition's maximal version key, or `-1` when
/// the partition has no row there.
pub open spec fn best_in_prefix(cat: Seq<CatalogEntry>, pkg: Seq<char>, repo: Seq<char>, k: int) -> int
    decreases k when 0 <= k <= cat.len()
{
    if k <= 0 {
        -1
    } else {
        let b = best_in_prefix(cat, pkg, repo, k - 1);
        if !(cat[k - 1].meta.package@ == pkg && cat[k - 1].meta.repo@ == repo) {
            b
        } else if b == -1 {
            k - 1
        } else if cat[k - 1].vercomp > cat[b].vercomp {
            k - 1
        } else {
            b
        }
    }
}

/// The index of the partition's retained row.
pub open spec fn retained_index(cat: Seq<CatalogEntry>, pkg: Seq<char>, repo: Seq<char>) -> int {
    best_in_prefix(cat, pkg, repo, cat.len() as int)
}

/// The partition's superseded indices: its rows that are not retained.
pub open spec fn superseded_partition_indices(
    cat: Seq<CatalogEntry>,
    pkg: Seq<char>,
    repo: Seq<char>,
) -> Set<int> {
    partition_indices(cat, pkg, repo).filter(|i: int| !is_retained(cat, i))
}

proof fn lemma_best_in_prefix_props(cat: Seq<CatalogEntry>, pkg: Seq<char>, repo: Seq<char>, k: int)
    requires
        0 <= k <= cat.len(),
    ensures
        best_in_prefix(cat, pkg, repo, k) == -1 ==> forall|j: int|
            0 <= j < k ==> !((#[trigger] cat[j]).meta.package@ == pkg && cat[j].meta.repo@
                == repo),
        best_in_prefix(cat, pkg, repo, k) != -1 ==> {
            let b = best_in_prefix(cat, pkg, repo, k);
            &&& 0 <= b < k
            &&& cat[b].meta.package@ == pkg
            &&& cat[b].meta.repo@ == repo
            &&& forall|j: int|
                0 <= j < k && (#[trigger] cat[j]).meta.package@ == pkg && cat[j].meta.repo@
                    == repo ==> cat[j].vercomp <= cat[b].vercomp
            &&& forall|j: int|
                0 <= j < b && (#[trigger] cat[j]).meta.package@ == pkg && cat[j].meta.repo@
                    == repo ==> cat[j].vercomp < cat[b].vercomp
        },
    decreases k,
{
    if k > 0 {
        lemma_best_in_prefix_props(cat, pkg, repo, k - 1);
    }
}

/// Exactly one survivor per partition: in every nonempty (package name,
/// repository) partition there is exactly one retained row — the earliest
/// row of maximal version key, a pure function of the catalog, so repeated
/// resolutions of the same catalog retain the same row — and the superseded
/// rows are exactly the remaining ones, one fewer than the partition has
/// rows. True version ties below the maximum are all superseded.
pub proof fn lemma_partition_one_survivor(cat: Seq<CatalogEntry>, pkg: Seq<char>, repo: Seq<char>)
    requires
        exists|w: int| partition_indices(cat, pkg, repo).contains(w),
    ensures
        partition_indices(cat, pkg, repo).contains(retained_index(cat, pkg, repo)),
        is_retained(cat, retained_index(cat, pkg, repo)),
        forall|i: int|
            partition_indices(cat, pkg, repo).contains(i) && is_retained(cat, i) ==> i
                == retained_index(cat, pkg, repo),
        partition_indices(cat, pkg, repo).finite(),
        superseded_partition_indices(cat, pkg, repo) == partition_indices(cat, pkg, repo).remove(
            retained_index(cat, pkg, repo),
        ),
        superseded_partition_indices(cat, pkg, repo).len() == partition_indices(
            cat,
            pkg,
            repo,
        ).len() - 1,
{
    let part = partition_indices(cat, pkg, repo);
    let n = cat.len() as int;
    lemma_best_in_prefix_props(cat, pkg, repo, n);
    let b = retained_index(cat, pkg, repo);
    let w = choose|w: int| part.contains(w);
    assert(b != -1);
    assert(part.contains(b));
    assert(is_retained(cat, b)) by {
        assert(forall|j: int|
            0 <= j < cat.len() && same_partition(cat[b], #[trigger] cat[j]) ==> cat[j].meta.package@
                == pkg && cat[j].meta.repo@ == repo);
    }
    assert forall|i: int| part.contains(i) && is_retained(cat, i) implies i == b by {
        if i < b {
            assert(same_partition(cat[b], cat[i]));
            assert(same_partition(cat[i], cat[b]));
            assert(cat[i].vercomp < cat[b].vercomp);
            assert(cat[b].vercomp <= cat[i].vercomp);
        } else if i > b {
            assert(same_partition(cat[b], cat[i]));
            assert(same_partition(cat[i], cat[b]));
            assert(cat[b].vercomp < cat[i].vercomp);
            assert(cat[i].vercomp <= cat[b].vercomp);
        }
    }
    assert(part.finite() && part.len() <= vstd::set_lib::set_int_range(0, n).len()) by {
        vstd::set_lib::lemma_int_range(0, n);
        assert(part.subset_of(vstd::set_lib::set_int_range(0, n)));
        vstd::set_lib::lemma_len_subset(part, vstd::set_lib::set_int_range(0, n));
    }
    assert(superseded_partition_indices(cat, pkg, repo) =~= part.remove(b));
    assert(part.remove(b).len() == part.len() - 1);
}


/// Row value `e` belongs to the (package name, repository) partition.
pub open spec fn is_partition_member(e: CatalogEntry, pkg: Seq<char>, repo: Seq<char>) -> bool {
    e.meta.package@ == pkg && e.meta.repo@ == repo
}

/// How many of the first `k` catalog rows belong to the partition.
pub open spec fn partition_count(cat: Seq<CatalogEntry>, pkg: Seq<char>, repo: Seq<char>, k: int) -> int
    decreases k when 0 <= k <= cat.len()
{
    if k <= 0 {
        0
    } else if is_partition_member(cat[k - 1], pkg, repo) {
        partition_count(cat, pkg, repo, k - 1) + 1
    } else {
        partition_count(cat, pkg, repo, k - 1)
    }
}

/// How many selected superseded rows belong to the partition.
pub open spec fn partition_selected_count(
    cat: Seq<CatalogEntry>,
    pkg: Seq<char>,
    repo: Seq<char>,
) -> int {
    superseded_selection(cat).filter(|e: CatalogEntry| is_partition_member(e, pkg, repo)).len()
        as int
}

proof fn lemma_filter_push<A>(s: Seq<A>, x: A, pred: spec_fn(A) -> bool)
    ensures
        pred(x) ==> s.push(x).filter(pred) == s.filter(pred).push(x),
        !pred(x) ==> s.push(x).filter(pred) == s.filter(pred),
{
    reveal(Seq::filter);
    assert(s.push(x).drop_last() =~= s);
    assert(s.push(x).last() == x);
    assert(s.push(x).len() == s.len() + 1);
}

proof fn lemma_partition_count_matches_indices(
    cat: Seq<CatalogEntry>,
    pkg: Seq<char>,
    repo: Seq<char>,
    k: int,
)
    requires
        0 <= k <= cat.len(),
    ensures
        Set::new(
            |i: int| 0 <= i < k && is_partition_member(cat[i], pkg, repo),
        ).finite(),
        Set::new(|i: int| 0 <= i < k && is_partition_member(cat[i], pkg, repo)).len()
            == partition_count(cat, pkg, repo, k),
    decreases k,
{
    let cur = Set::new(|i: int| 0 <= i < k && is_partition_member(cat[i], pkg, repo));
    if k == 0 {
        assert(cur =~= Set::<int>::empty());
    } else {
        lemma_partition_count_matches_indices(cat, pkg, repo, k - 1);
        let pre = Set::new(|i: int| 0 <= i < k - 1 && is_partition_member(cat[i], pkg, repo));
        if is_partition_member(cat[k - 1], pkg, repo) {
            assert(cur =~= pre.insert(k - 1));
            assert(!pre.contains(k - 1));
        } else {
            assert(cur =~= pre);
        }
    }
}

proof fn lemma_selected_count_prefix(cat: Seq<CatalogEntry>, pkg: Seq<char>, repo: Seq<char>, k: int)
    requires
        0 <= k <= cat.len(),
        exists|w: int| partition_indices(cat, pkg, repo).contains(w),
    ensures
        superseded_prefix(cat, k).filter(
            |e: CatalogEntry| is_partition_member(e, pkg, repo),
        ).len() == partition_count(cat, pkg, repo, k) - (if retained_index(cat, pkg, repo) < k {
            1int
        } else {
            0int
        }),
    decreases k,
{
    let pred = |e: CatalogEntry| is_partition_member(e, pkg, repo);
    lemma_partition_one_survivor(cat, pkg, repo);
    let b = retained_index(cat, pkg, repo);
    if k == 0 {
        reveal(Seq::filter);
        assert(superseded_prefix(cat, 0).filter(pred) =~= Seq::<CatalogEntry>::empty().filter(
            pred,
        ));
        assert(Seq::<CatalogEntry>::empty().filter(pred).len() == 0);
    } else {
        lemma_selected_count_prefix(cat, pkg, repo, k - 1);
        let pre = superseded_prefix(cat, k - 1);
        let cur = superseded_prefix(cat, k);
        if is_retained(cat, k - 1) {
            assert(cur == pre);
            if is_partition_member(cat[k - 1], pkg, repo) {
                assert(partition_indices(cat, pkg, repo).contains(k - 1));
                assert(k - 1 == b);
            } else {
                assert(b != k - 1);
            }
        } else {
            assert(cur == pre.push(cat[k - 1]));
            lemma_filter_push(pre, cat[k - 1], pred);
            if is_partition_member(cat[k - 1], pkg, repo) {
                assert(partition_indices(cat, pkg, repo).contains(k - 1));
                assert(k - 1 != b);
            }
        }
    }
}

/// Exactly N - 1 of a partition's N rows are selected as superseded: the
/// resolver's superseded output holds, for every nonempty (package name,
/// repository) partition, one candidate fewer than the partition has
/// catalog rows — the retained newest row is never among them.
pub proof fn lemma_superseded_selects_all_but_one(
    cat: Seq<CatalogEntry>,
    pkg: Seq<char>,
    repo: Seq<char>,
)
    requires
        exists|w: int| partition_indices(cat, pkg, repo).contains(w),
    ensures
        partition_count(cat, pkg, repo, cat.len() as int) == partition_indices(
            cat,
            pkg,
            repo,
        ).len(),
        partition_selected_count(cat, pkg, repo) == partition_count(
            cat,
            pkg,
            repo,
            cat.len() as int,
        ) - 1,
{
    let n = cat.len() as int;
    lemma_partition_count_matches_indices(cat, pkg, repo, n);
    assert(Set::new(|i: int| 0 <= i < n && is_partition_member(cat[i], pkg, repo))
        =~= partition_indices(cat, pkg, repo));
    lemma_selected_count_prefix(cat, pkg, repo, n);
    lemma_partition_one_survivor(cat, pkg, repo);
    assert(retained_index(cat, pkg, repo) < n);
}

} // verus!\n