//! Kernel-variant retirement: per-version kernel artifacts whose significant
//! version no longer matches the published metapackage of their family.
//!
//! Kernel builds are published per numeric version under family-prefixed
//! names, and per variant under a dynamic set of suffixes. The set of
//! variants is not hardcoded: it is discovered by scanning metapackage names
//! in the catalog, because new variants appear upstream independently of this
//! tool. For the base family and for every discovered variant, an artifact is
//! selected when the significant portion of its version matches no
//! metapackage row of the same family.

use vstd::prelude::*;
use vstd::string::StrSliceExecFns;
use crate::artifact::CatalogEntry;
use crate::artifact::RetireReason;
use crate::artifact::RetirementCandidate;
use crate::resolver::with_reason;
use crate::strutil::is_digit;
use crate::strutil::is_digit_char;
use crate::strutil::seq_starts_with;
use crate::strutil::str_concat;
use crate::strutil::str_eq;
use crate::strutil::str_starts_with;
use crate::strutil::views_of;
use crate::version::sig_matches;
use crate::version::significant_matches;
use crate::version::significant_of;
use crate::version::significant_version;

verus! {

/// The family prefix of per-version kernel artifacts.
pub open spec fn kernel_artifact_prefix() -> Seq<char> {
    "linux-kernel-"@
}

/// The name of the base kernel metapackage.
pub open spec fn kernel_meta_base() -> Seq<char> {
    "linux+kernel"@
}

/// The prefix of per-variant kernel metapackage names.
pub open spec fn kernel_meta_prefix() -> Seq<char> {
    "linux+kernel+"@
}

/// A per-version artifact of the base kernel family: the family prefix
/// followed directly by a numeric version.
pub open spec fn is_base_kernel_artifact(name: Seq<char>) -> bool {
    &&& seq_starts_with(name, kernel_artifact_prefix())
    &&& kernel_artifact_prefix().len() < name.len()
    &&& is_digit(name[kernel_artifact_prefix().len() as int])
}

/// The name prefix of per-version artifacts of a kernel variant.
pub open spec fn variant_artifact_prefix(v: Seq<char>) -> Seq<char> {
    kernel_artifact_prefix() + v + "-"@
}

/// A per-version artifact of the given kernel variant: the variant's prefix
/// followed directly by a numeric version.
pub open spec fn is_variant_kernel_artifact(name: Seq<char>, v: Seq<char>) -> bool {
    &&& seq_starts_with(name, variant_artifact_prefix(v))
    &&& variant_artifact_prefix(v).len() < name.len()
    &&& is_digit(name[variant_artifact_prefix(v).len() as int])
}

/// Some catalog row is a metapackage of the given name whose significant
/// version matches the given version.
pub open spec fn has_current_metapackage(
    cat: Seq<CatalogEntry>,
    meta_name: Seq<char>,
    version: Seq<char>,
) -> bool {
    exists|j: int|
        0 <= j < cat.len() && (#[trigger] cat[j]).meta.package@ == meta_name && sig_matches(
            version,
            cat[j].meta.version@,
        )
}

/// Row `i` is an outdated artifact of the base kernel family.
pub open spec fn base_kernel_selected(cat: Seq<CatalogEntry>, i: int) -> bool {
    &&& is_base_kernel_artifact(cat[i].meta.package@)
    &&& !has_current_metapackage(cat, kernel_meta_base(), cat[i].meta.version@)
}

/// Row `i` is an outdated artifact of kernel variant `v`.
pub open spec fn variant_kernel_selected(cat: Seq<CatalogEntry>, i: int, v: Seq<char>) -> bool {
    &&& is_variant_kernel_artifact(cat[i].meta.package@, v)
    &&& !has_current_metapackage(cat, kernel_meta_prefix() + v, cat[i].meta.version@)
}

/// The outdated base-family rows among the first `k` catalog rows.
pub open spec fn base_kernel_prefix_sel(cat: Seq<CatalogEntry>, k: int) -> Seq<CatalogEntry>
    decreases k when 0 <= k <= cat.len()
{
    if k <= 0 {
        Seq::empty()
    } else if base_kernel_selected(cat, k - 1) {
        base_kernel_prefix_sel(cat, k - 1).push(cat[k - 1])
    } else {
        base_kernel_prefix_sel(cat, k - 1)
    }
}

/// Every outdated base-family row, in catalog order.
pub open spec fn base_kernel_selection(cat: Seq<CatalogEntry>) -> Seq<CatalogEntry> {
    base_kernel_prefix_sel(cat, cat.len() as int)
}

/// The outdated rows of variant `v` among the first `k` catalog rows.
pub open spec fn variant_kernel_prefix_sel(cat: Seq<CatalogEntry>, v: Seq<char>, k: int) -> Seq<
    CatalogEntry,
>
    decreases k when 0 <= k <= cat.len()
{
    if k <= 0 {
        Seq::empty()
    } else if variant_kernel_selected(cat, k - 1, v) {
        variant_kernel_prefix_sel(cat, v, k - 1).push(cat[k - 1])
    } else {
        variant_kernel_prefix_sel(cat, v, k - 1)
    }
}

/// Every outdated row of variant `v`, in catalog order.
pub open spec fn variant_kernel_selection(cat: Seq<CatalogEntry>, v: Seq<char>) -> Seq<
    CatalogEntry,
> {
    variant_kernel_prefix_sel(cat, v, cat.len() as int)
}

/// The variant identifier carried by a metapackage name.
pub open spec fn variant_of(name: Seq<char>) -> Seq<char> {
    name.subrange(kernel_meta_prefix().len() as int, name.len() as int)
}

/// The distinct variant identifiers named by metapackages among the first
/// `k` catalog rows, in order of first appearance.
pub open spec fn discovered_variants_prefix(cat: Seq<CatalogEntry>, k: int) -> Seq<Seq<char>>
    decreases k when 0 <= k <= cat.len()
{
    if k <= 0 {
        Seq::empty()
    } else {
        let pre = discovered_variants_prefix(cat, k - 1);
        let name = cat[k - 1].meta.package@;
        if seq_starts_with(name, kernel_meta_prefix()) && !pre.contains(variant_of(name)) {
            pre.push(variant_of(name))
        } else {
            pre
        }
    }
}

/// Every distinct kernel variant the catalog's metapackages name.
pub open spec fn discovered_variants(cat: Seq<CatalogEntry>) -> Seq<Seq<char>> {
    discovered_variants_prefix(cat, cat.len() as int)
}

/// The concatenated per-variant selections, in the order the variants were
/// discovered.
pub open spec fn variants_selections(cat: Seq<CatalogEntry>, vs: Seq<Seq<char>>) -> Seq<
    CatalogEntry,
>
    decreases vs.len(),
{
    if vs.len() == 0 {
        Seq::empty()
    } else {
        variant_kernel_selection(cat, vs[0]) + variants_selections(cat, vs.drop_first())
    }
}

/// All outdated kernel rows: the base family's, then each discovered
/// variant's, concatenated in discovery order.
pub open spec fn kernel_selection(cat: Seq<CatalogEntry>) -> Seq<CatalogEntry> {
    base_kernel_selection(cat) + variants_selections(cat, discovered_variants(cat))
}

proof fn lemma_variants_selections_snoc(cat: Seq<CatalogEntry>, vs: Seq<Seq<char>>, v: Seq<char>)
    ensures
        variants_selections(cat, vs.push(v)) == variants_selections(cat, vs)
            + variant_kernel_selection(cat, v),
    decreases vs.len(),
{
    if vs.len() == 0 {
        assert(vs.push(v).drop_first() =~= vs);
        assert(vs.push(v)[0] == v);
        assert(variants_selections(cat, vs) =~= Seq::<CatalogEntry>::empty());
        assert(variant_kernel_selection(cat, v) + variants_selections(cat, vs)
            =~= variant_kernel_selection(cat, v));
        assert(variants_selections(cat, vs) + variant_kernel_selection(cat, v)
            =~= variant_kernel_selection(cat, v));
    } else {
        assert(vs.push(v).drop_first() =~= vs.drop_first().push(v));
        lemma_variants_selections_snoc(cat, vs.drop_first(), v);
        assert(vs.push(v)[0] == vs[0]);
        assert(variant_kernel_selection(cat, vs[0]) + (variants_selections(cat, vs.drop_first())
            + variant_kernel_selection(cat, v)) =~= (variant_kernel_selection(cat, vs[0])
            + variants_selections(cat, vs.drop_first())) + variant_kernel_selection(cat, v));
    }
}

fn has_current_metapackage_exec(catalog: &Vec<CatalogEntry>, meta_name: &str, version: &str) -> (r:
    bool)
    ensures
        r == has_current_metapackage(catalog@, meta_name@, version@),
{
    let n = catalog.len();
    let mut j: usize = 0;
    while j < n
        invariant
            n == catalog@.len(),
            j <= n,
            forall|m: int|
                0 <= m < j ==> !((#[trigger] catalog@[m]).meta.package@ == meta_name@
                    && sig_matches(version@, catalog@[m].meta.version@)),
        decreases n - j,
    {
        if str_eq(catalog[j].meta.package.as_str(), meta_name) && significant_matches(
            version,
            catalog[j].meta.version.as_str(),
        ) {
            return true;
        }
        j = j + 1;
    }
    false
}

/// Whether `name` is a per-version artifact name: `prefix` followed directly
/// by a digit. `prefix` must view to `pre_view`.
fn is_prefixed_numeric_exec(name: &str, prefix: &str) -> (r: bool)
    ensures
        r == (seq_starts_with(name@, prefix@) && prefix@.len() < name@.len() && is_digit(
            name@[prefix@.len() as int],
        )),
{
    if !str_starts_with(name, prefix) {
        return false;
    }
    let n = name.unicode_len();
    let m = prefix.unicode_len();
    if m >= n {
        return false;
    }
    is_digit_char(name.get_char(m))
}

/// The variant identifiers of the kernel metapackages present in the
/// catalog, each listed once, in order of first appearance. The set is
/// discovered from the catalog because new variants appear upstream at any
/// time and must not be hardcoded.
pub fn discover_kernel_variants(catalog: &Vec<CatalogEntry>) -> (out: Vec<String>)
    ensures
        views_of(out@) == discovered_variants(catalog@),
{
    let n = catalog.len();
    let meta_prefix = "linux+kernel+";
    let plen = meta_prefix.unicode_len();
    let mut out: Vec<String> = Vec::new();
    let mut k: usize = 0;
    while k < n
        invariant
            n == catalog@.len(),
            k <= n,
            meta_prefix@ == kernel_meta_prefix(),
            plen == kernel_meta_prefix().len(),
            views_of(out@) == discovered_variants_prefix(catalog@, k as int),
        decreases n - k,
    {
        let name = catalog[k].meta.package.as_str();
        if str_starts_with(name, meta_prefix) {
            let nlen = name.unicode_len();
            let suffix = name.substring_char(plen, nlen).to_owned();
            proof {
                assert(suffix@ == variant_of(catalog@[k as int].meta.package@));
            }
            let mut seen = false;
            let m = out.len();
            let mut i: usize = 0;
            while i < m && !seen
                invariant
                    m == out@.len(),
                    i <= m,
                    seen ==> exists|p: int| 0 <= p < m && #[trigger] out@[p]@ == suffix@,
                    !seen ==> forall|p: int| 0 <= p < i ==> #[trigger] out@[p]@ != suffix@,
                decreases m - i,
            {
                if str_eq(out[i].as_str(), suffix.as_str()) {
                    seen = true;
                    proof {
                        assert(out@[i as int]@ == suffix@);
                    }
                }
                i = i + 1;
            }
            proof {
                if seen {
                    assert(views_of(out@).contains(suffix@)) by {
                        let p = choose|p: int| 0 <= p < m && #[trigger] out@[p]@ == suffix@;
                        assert(views_of(out@)[p] == suffix@);
                    }
                } else {
                    assert(i == m);
                    assert(!views_of(out@).contains(suffix@)) by {
                        if views_of(out@).contains(suffix@) {
                            let p = choose|p: int|
                                0 <= p < views_of(out@).len() && views_of(out@)[p] == suffix@;
                            assert(out@[p]@ == suffix@);
                        }
                    }
                }
            }
            if !seen {
                let ghost old_out = out@;
                out.push(suffix);
                proof {
                    assert(views_of(out@) =~= views_of(old_out).push(
                        variant_of(catalog@[k as int].meta.package@),
                    ));
                }
            }
        }
        k = k + 1;
    }
    out
}

/// The candidate rows of one family, selected by `prefix` (the per-version
/// artifact name prefix) and `meta_name` (the family's metapackage name).
fn family_kernel_candidates(
    catalog: &Vec<CatalogEntry>,
    prefix: &str,
    meta_name: &str,
    Ghost(v): Ghost<Option<Seq<char>>>,
) -> (out: Vec<RetirementCandidate>)
    requires
        match v {
            Some(vv) => prefix@ == variant_artifact_prefix(vv) && meta_name@ == kernel_meta_prefix()
                + vv,
            None => prefix@ == kernel_artifact_prefix() && meta_name@ == kernel_meta_base(),
        },
    ensures
        match v {
            Some(vv) => out@ == with_reason(
                variant_kernel_selection(catalog@, vv),
                RetireReason::OutdatedKernelVariant,
            ),
            None => out@ == with_reason(
                base_kernel_selection(catalog@),
                RetireReason::OutdatedKernelVariant,
            ),
        },
{
    let n = catalog.len();
    let mut out: Vec<RetirementCandidate> = Vec::new();
    let mut k: usize = 0;
    while k < n
        invariant
            n == catalog@.len(),
            k <= n,
            match v {
                Some(vv) => prefix@ == variant_artifact_prefix(vv) && meta_name@
                    == kernel_meta_prefix() + vv && out@ == with_reason(
                    variant_kernel_prefix_sel(catalog@, vv, k as int),
                    RetireReason::OutdatedKernelVariant,
                ),
                None => prefix@ == kernel_artifact_prefix() && meta_name@ == kernel_meta_base()
                    && out@ == with_reason(
                    base_kernel_prefix_sel(catalog@, k as int),
                    RetireReason::OutdatedKernelVariant,
                ),
            },
        decreases n - k,
    {
        let name = catalog[k].meta.package.as_str();
        let selected = is_prefixed_numeric_exec(name, prefix)
            && !has_current_metapackage_exec(catalog, meta_name, catalog[k].meta.version.as_str());
        if selected {
            let cand = RetirementCandidate {
                meta: catalog[k].meta.duplicate(),
                reason: RetireReason::OutdatedKernelVariant,
            };
            out.push(cand);
        }
        proof {
            match v {
                Some(vv) => {
                    assert(selected == variant_kernel_selected(catalog@, k as int, vv));
                    if selected {
                        assert(with_reason(
                            variant_kernel_prefix_sel(catalog@, vv, k + 1),
                            RetireReason::OutdatedKernelVariant,
                        ) =~= with_reason(
                            variant_kernel_prefix_sel(catalog@, vv, k as int),
                            RetireReason::OutdatedKernelVariant,
                        ).push(
                            RetirementCandidate {
                                meta: catalog@[k as int].meta,
                                reason: RetireReason::OutdatedKernelVariant,
                            },
                        ));
                    }
                },
                None => {
                    assert(selected == base_kernel_selected(catalog@, k as int));
                    if selected {
                        assert(with_reason(
                            base_kernel_prefix_sel(catalog@, k + 1),
                            RetireReason::OutdatedKernelVariant,
                        ) =~= with_reason(
                            base_kernel_prefix_sel(catalog@, k as int),
                            RetireReason::OutdatedKernelVariant,
                        ).push(
                            RetirementCandidate {
                                meta: catalog@[k as int].meta,
                                reason: RetireReason::OutdatedKernelVariant,
                            },
                        ));
                    }
                },
            }
        }
        k = k + 1;
    }
    out
}

/// Kernel-variant selection: for the base family and for every variant the
/// catalog's metapackages name, every per-version kernel artifact whose
/// significant version matches no metapackage of its family becomes a
/// candidate.
pub fn determine_retired_kernel_packages(catalog: &Vec<CatalogEntry>) -> (out: Vec<
    RetirementCandidate,
>)
    ensures
        out@ == with_reason(kernel_selection(catalog@), RetireReason::OutdatedKernelVariant),
{
    let mut out = family_kernel_candidates(
        catalog,
        "linux-kernel-",
        "linux+kernel",
        Ghost(None),
    );
    let variants = discover_kernel_variants(catalog);
    let ghost vs = discovered_variants(catalog@);
    let nv = variants.len();
    let mut i: usize = 0;
    while i < nv
        invariant
            nv == variants@.len(),
            i <= nv,
            views_of(variants@) == vs,
            vs == discovered_variants(catalog@),
            out@ == with_reason(
                base_kernel_selection(catalog@) + variants_selections(
                    catalog@,
                    vs.subrange(0, i as int),
                ),
                RetireReason::OutdatedKernelVariant,
            ),
        decreases nv - i,
    {
        let v = variants[i].as_str();
        proof {
            assert(v@ == vs[i as int]);
        }
        let vprefix_head = str_concat("linux-kernel-", v);
        let vprefix = str_concat(vprefix_head.as_str(), "-");
        let vmeta = str_concat("linux+kernel+", v);
        proof {
            assert(vprefix@ =~= variant_artifact_prefix(v@));
            assert(vmeta@ == kernel_meta_prefix() + v@);
        }
        let mut more = family_kernel_candidates(
            catalog,
            vprefix.as_str(),
            vmeta.as_str(),
            Ghost(Some(v@)),
        );
        out.append(&mut more);
        proof {
            assert(vs.subrange(0, i + 1) =~= vs.subrange(0, i as int).push(vs[i as int]));
            lemma_variants_selections_snoc(catalog@, vs.subrange(0, i as int), vs[i as int]);
            assert(with_reason(
                base_kernel_selection(catalog@) + variants_selections(
                    catalog@,
                    vs.subrange(0, i + 1),
                ),
                RetireReason::OutdatedKernelVariant,
            ) =~= with_reason(
                base_kernel_selection(catalog@) + variants_selections(
                    catalog@,
                    vs.subrange(0, i as int),
                ),
                RetireReason::OutdatedKernelVariant,
            ) + with_reason(
                variant_kernel_selection(catalog@, vs[i as int]),
                RetireReason::OutdatedKernelVariant,
            ));
        }
        i = i + 1;
    }
    proof {
        assert(vs.subrange(0, vs.len() as int) =~= vs);
    }
    out
}

/// The distinct significant versions carried by metapackage rows of the
/// given kernel variant, in order of first appearance — the per-variant
/// enumeration reported to the operator before retirement.
pub open spec fn available_sig_prefix(
    cat: Seq<CatalogEntry>,
    meta_name: Seq<char>,
    k: int,
) -> Seq<Seq<char>>
    decreases k when 0 <= k <= cat.len()
{
    if k <= 0 {
        Seq::empty()
    } else {
        let pre = available_sig_prefix(cat, meta_name, k - 1);
        let row = cat[k - 1].meta;
        if row.package@ == meta_name && significant_of(row.version@) is Some && !pre.contains(
            significant_of(row.version@)->0,
        ) {
            pre.push(significant_of(row.version@)->0)
        } else {
            pre
        }
    }
}

/// Every distinct significant version of the named metapackage.
pub open spec fn available_sig_selection(cat: Seq<CatalogEntry>, meta_name: Seq<char>) -> Seq<
    Seq<char>,
> {
    available_sig_prefix(cat, meta_name, cat.len() as int)
}

/// The significant versions at which the metapackage of the given variant is
/// published, each listed once, in order of first appearance.
pub fn available_significant_versions(catalog: &Vec<CatalogEntry>, variant: &str) -> (out: Vec<
    String,
>)
    ensures
        views_of(out@) == available_sig_selection(catalog@, kernel_meta_prefix() + variant@),
{
    let meta_name = str_concat("linux+kernel+", variant);
    let n = catalog.len();
    let mut out: Vec<String> = Vec::new();
    let mut k: usize = 0;
    while k < n
        invariant
            n == catalog@.len(),
            k <= n,
            meta_name@ == kernel_meta_prefix() + variant@,
            views_of(out@) == available_sig_prefix(catalog@, meta_name@, k as int),
        decreases n - k,
    {
        if str_eq(catalog[k].meta.package.as_str(), meta_name.as_str()) {
            match significant_version(catalog[k].meta.version.as_str()) {
                Some(sv) => {
                    let mut seen = false;
                    let m = out.len();
                    let mut i: usize = 0;
                    while i < m && !seen
                        invariant
                            m == out@.len(),
                            i <= m,
                            seen ==> exists|p: int| 0 <= p < m && #[trigger] out@[p]@ == sv@,
                            !seen ==> forall|p: int| 0 <= p < i ==> #[trigger] out@[p]@ != sv@,
                        decreases m - i,
                    {
                        if str_eq(out[i].as_str(), sv.as_str()) {
                            seen = true;
                            proof {
                                assert(out@[i as int]@ == sv@);
                            }
                        }
                        i = i + 1;
                    }
                    proof {
                        if seen {
                            assert(views_of(out@).contains(sv@)) by {
                                let p = choose|p: int| 0 <= p < m && #[trigger] out@[p]@ == sv@;
                                assert(views_of(out@)[p] == sv@);
                            }
                        } else {
                            assert(i == m);
                            assert(!views_of(out@).contains(sv@)) by {
                                if views_of(out@).contains(sv@) {
                                    let p = choose|p: int|
                                        0 <= p < views_of(out@).len() && views_of(out@)[p] == sv@;
                                    assert(out@[p]@ == sv@);
                                }
                            }
                        }
                    }
                    if !seen {
                        let ghost old_out = out@;
                        out.push(sv);
                        proof {
                            assert(views_of(out@) =~= views_of(old_out).push(
                                significant_of(catalog@[k as int].meta.version@)->0,
                            ));
                        }
                    }
                },
                None => {},
            }
        }
        k = k + 1;
    }
    out
}

} // verus!
