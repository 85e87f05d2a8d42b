//! The option compatibility resolver: validates a selected-option list
//! against the full option catalog and a target platform, collecting every
//! violation rather than stopping at the first.

use crate::bytes::{list_contains, views};
use crate::options::{
    all_options, entry_views, items_view, sp_applicable, sp_flat, CatalogItem,
    OptionEntry, OptionEntryView,
};
use vstd::prelude::*;

verus! {

/// One concrete way a selection violates the catalog's constraints.
pub enum Violation {
    /// The selection names an option that no catalog entry has.
    UnknownOption { name: Vec<u8> },
    /// The option exists, but no entry with that name applies to the chosen
    /// platform.
    UnsupportedForPlatform { name: Vec<u8> },
    /// A required option is missing from the selection.
    UnmetRequirement { name: Vec<u8>, missing: Vec<u8> },
    /// A selected option is invalidated by another selected option.
    DisabledByConflict { name: Vec<u8>, disabled_by: Vec<u8> },
    /// Two or more distinct selected options share a selection group.
    MutuallyExclusiveConflict { group: Vec<u8>, names: Vec<Vec<u8>> },
}

/// The mathematical value of a violation.
pub ghost enum ViolationView {
    UnknownOption(Seq<u8>),
    UnsupportedForPlatform(Seq<u8>),
    UnmetRequirement(Seq<u8>, Seq<u8>),
    DisabledByConflict(Seq<u8>, Seq<u8>),
    MutuallyExclusiveConflict(Seq<u8>, Seq<Seq<u8>>),
}

impl View for Violation {
    type V = ViolationView;

    open spec fn view(&self) -> ViolationView {
        match self {
            Violation::UnknownOption { name } => ViolationView::UnknownOption(name@),
            Violation::UnsupportedForPlatform { name } => ViolationView::UnsupportedForPlatform(
                name@,
            ),
            Violation::UnmetRequirement { name, missing } => ViolationView::UnmetRequirement(
                name@,
                missing@,
            ),
            Violation::DisabledByConflict { name, disabled_by } => ViolationView::DisabledByConflict(
                name@,
                disabled_by@,
            ),
            Violation::MutuallyExclusiveConflict { group, names } => ViolationView::MutuallyExclusiveConflict(
                group@,
                views(names@),
            ),
        }
    }
}

/// The views of a list of violations.
pub open spec fn viol_views(l: Seq<Violation>) -> Seq<ViolationView> {
    l.map_values(|x: Violation| x@)
}

/// The views of the recorded selection groups.
pub open spec fn groups_view(l: Seq<(Vec<u8>, Vec<Vec<u8>>)>) -> Seq<(Seq<u8>, Seq<Seq<u8>>)> {
    l.map_values(|p: (Vec<u8>, Vec<Vec<u8>>)| (p.0@, views(p.1@)))
}

/// The names in `list` that the selection lacks, in order.
pub open spec fn sp_missing(list: Seq<Seq<u8>>, sel: Seq<Seq<u8>>) -> Seq<Seq<u8>>
    decreases list.len(),
{
    if list.len() == 0 {
        Seq::empty()
    } else {
        (if !sel.contains(list[0]) {
            seq![list[0]]
        } else {
            Seq::empty()
        }) + sp_missing(list.drop_first(), sel)
    }
}

/// The names in `list` that the selection holds, in order.
pub open spec fn sp_present(list: Seq<Seq<u8>>, sel: Seq<Seq<u8>>) -> Seq<Seq<u8>>
    decreases list.len(),
{
    if list.len() == 0 {
        Seq::empty()
    } else {
        (if sel.contains(list[0]) {
            seq![list[0]]
        } else {
            Seq::empty()
        }) + sp_present(list.drop_first(), sel)
    }
}

/// An entry is active under a selection iff every required option is
/// selected and no disabling option is.
pub open spec fn sp_active(e: OptionEntryView, sel: Seq<Seq<u8>>) -> bool {
    sp_missing(e.requires_list, sel).len() == 0 && sp_present(e.disabled_by, sel).len() == 0
}

/// The violations one applicable-but-inactive entry contributes: one per
/// missing requirement and one per present disabling option.
pub open spec fn sp_entry_viols(e: OptionEntryView, sel: Seq<Seq<u8>>) -> Seq<ViolationView> {
    sp_missing(e.requires_list, sel).map_values(
        |m: Seq<u8>| ViolationView::UnmetRequirement(e.name, m),
    ) + sp_present(e.disabled_by, sel).map_values(
        |d: Seq<u8>| ViolationView::DisabledByConflict(e.name, d),
    )
}

/// `(group, name)` recorded in the group table, deduplicated per group,
/// insertion order kept.
pub open spec fn sp_group_add(
    groups: Seq<(Seq<u8>, Seq<Seq<u8>>)>,
    g: Seq<u8>,
    n: Seq<u8>,
) -> Seq<(Seq<u8>, Seq<Seq<u8>>)>
    decreases groups.len(),
{
    if groups.len() == 0 {
        seq![(g, seq![n])]
    } else if groups[0].0 == g {
        if groups[0].1.contains(n) {
            groups
        } else {
            seq![(g, groups[0].1.push(n))] + groups.drop_first()
        }
    } else {
        seq![groups[0]] + sp_group_add(groups.drop_first(), g, n)
    }
}

/// One selection entry checked against every catalog entry of its name,
/// from position `j` on: marks it unknown or platform-unsupported, records
/// active grouped entries, and collects the violations of inactive ones.
pub open spec fn sp_check_name(
    flat: Seq<OptionEntryView>,
    j: int,
    n: Seq<u8>,
    plat: Seq<u8>,
    sel: Seq<Seq<u8>>,
    viols: Seq<ViolationView>,
    groups: Seq<(Seq<u8>, Seq<Seq<u8>>)>,
    found: bool,
    found_plat: bool,
) -> (Seq<ViolationView>, Seq<(Seq<u8>, Seq<Seq<u8>>)>)
    decreases flat.len() - j,
{
    if j >= flat.len() {
        if !found {
            (viols.push(ViolationView::UnknownOption(n)), groups)
        } else if !found_plat {
            (viols.push(ViolationView::UnsupportedForPlatform(n)), groups)
        } else {
            (viols, groups)
        }
    } else {
        let e = flat[j];
        if e.name != n {
            sp_check_name(flat, j + 1, n, plat, sel, viols, groups, found, found_plat)
        } else if !sp_applicable(e, plat) {
            sp_check_name(flat, j + 1, n, plat, sel, viols, groups, true, found_plat)
        } else if sp_active(e, sel) {
            let groups2 = if e.group.len() > 0 {
                sp_group_add(groups, e.group, n)
            } else {
                groups
            };
            sp_check_name(flat, j + 1, n, plat, sel, viols, groups2, true, true)
        } else {
            sp_check_name(
                flat,
                j + 1,
                n,
                plat,
                sel,
                viols + sp_entry_viols(e, sel),
                groups,
                true,
                true,
            )
        }
    }
}

/// Every selection entry checked in order, threading the violation list and
/// the group table through.
pub open spec fn sp_scan_selection(
    flat: Seq<OptionEntryView>,
    sel: Seq<Seq<u8>>,
    idx: int,
    plat: Seq<u8>,
    acc: (Seq<ViolationView>, Seq<(Seq<u8>, Seq<Seq<u8>>)>),
) -> (Seq<ViolationView>, Seq<(Seq<u8>, Seq<Seq<u8>>)>)
    decreases sel.len() - idx,
{
    if idx >= sel.len() {
        acc
    } else {
        sp_scan_selection(
            flat,
            sel,
            idx + 1,
            plat,
            sp_check_name(flat, 0, sel[idx], plat, sel, acc.0, acc.1, false, false),
        )
    }
}

/// One violation per recorded group holding more than one distinct name.
pub open spec fn sp_group_viols(groups: Seq<(Seq<u8>, Seq<Seq<u8>>)>, k: int) -> Seq<ViolationView>
    decreases groups.len() - k,
{
    if k >= groups.len() {
        Seq::empty()
    } else {
        (if groups[k].1.len() > 1 {
            seq![ViolationView::MutuallyExclusiveConflict(groups[k].0, groups[k].1)]
        } else {
            Seq::empty()
        }) + sp_group_viols(groups, k + 1)
    }
}

/// Every violation of the selection against the flattened catalog, in the
/// order they are found: per-selection-entry violations first, then the
/// mutual-exclusion conflicts.
pub open spec fn sp_validate(
    sel: Seq<Seq<u8>>,
    plat: Seq<u8>,
    flat: Seq<OptionEntryView>,
) -> Seq<ViolationView> {
    let acc = sp_scan_selection(flat, sel, 0, plat, (Seq::empty(), Seq::empty()));
    acc.0 + sp_group_viols(acc.1, 0)
}

/// The names in `list` missing from the selection, as fresh copies.
fn missing_from(list: &Vec<Vec<u8>>, sel: &Vec<Vec<u8>>) -> (r: Vec<Vec<u8>>)
    ensures
        views(r@) == sp_missing(views(list@), views(sel@)),
{
    let mut out: Vec<Vec<u8>> = Vec::new();
    let n = list.len();
    let mut j: usize = 0;
    proof {
        assert(views(list@).skip(0) =~= views(list@));
        assert(views(out@) + sp_missing(views(list@), views(sel@)) =~= sp_missing(
            views(list@),
            views(sel@),
        ));
    }
    while j < n
        invariant
            n == list@.len(),
            0 <= j <= n,
            sp_missing(views(list@), views(sel@)) == views(out@) + sp_missing(
                views(list@).skip(j as int),
                views(sel@),
            ),
        decreases n - j,
    {
        let ghost lv = views(list@);
        proof {
            assert(lv.skip(j as int)[0] == lv[j as int]);
            assert(lv.skip(j as int).drop_first() =~= lv.skip(j as int + 1));
        }
        if !list_contains(sel, list[j].as_slice()) {
            let ghost prev = out@;
            out.push(vstd::slice::slice_to_vec(list[j].as_slice()));
            proof {
                assert(views(out@) =~= views(prev).push(lv[j as int]));
                assert(views(prev) + (seq![lv[j as int]] + sp_missing(
                    lv.skip(j as int + 1),
                    views(sel@),
                )) =~= views(out@) + sp_missing(lv.skip(j as int + 1), views(sel@)));
            }
        } else {
            proof {
                assert(Seq::<Seq<u8>>::empty() + sp_missing(lv.skip(j as int + 1), views(sel@))
                    =~= sp_missing(lv.skip(j as int + 1), views(sel@)));
            }
        }
        j = j + 1;
    }
    proof {
        assert(views(list@).skip(n as int).len() == 0);
        assert(views(out@) + sp_missing(views(list@).skip(n as int), views(sel@)) =~= views(
            out@,
        ));
    }
    out
}

/// The names in `list` present in the selection, as fresh copies.
fn present_in(list: &Vec<Vec<u8>>, sel: &Vec<Vec<u8>>) -> (r: Vec<Vec<u8>>)
    ensures
        views(r@) == sp_present(views(list@), views(sel@)),
{
    let mut out: Vec<Vec<u8>> = Vec::new();
    let n = list.len();
    let mut j: usize = 0;
    proof {
        assert(views(list@).skip(0) =~= views(list@));
        assert(views(out@) + sp_present(views(list@), views(sel@)) =~= sp_present(
            views(list@),
            views(sel@),
        ));
    }
    while j < n
        invariant
            n == list@.len(),
            0 <= j <= n,
            sp_present(views(list@), views(sel@)) == views(out@) + sp_present(
                views(list@).skip(j as int),
                views(sel@),
            ),
        decreases n - j,
    {
        let ghost lv = views(list@);
        proof {
            assert(lv.skip(j as int)[0] == lv[j as int]);
            assert(lv.skip(j as int).drop_first() =~= lv.skip(j as int + 1));
        }
        if list_contains(sel, list[j].as_slice()) {
            let ghost prev = out@;
            out.push(vstd::slice::slice_to_vec(list[j].as_slice()));
            proof {
                assert(views(out@) =~= views(prev).push(lv[j as int]));
                assert(views(prev) + (seq![lv[j as int]] + sp_present(
                    lv.skip(j as int + 1),
                    views(sel@),
                )) =~= views(out@) + sp_present(lv.skip(j as int + 1), views(sel@)));
            }
        } else {
            proof {
                assert(Seq::<Seq<u8>>::empty() + sp_present(lv.skip(j as int + 1), views(sel@))
                    =~= sp_present(lv.skip(j as int + 1), views(sel@)));
            }
        }
        j = j + 1;
    }
    proof {
        assert(views(list@).skip(n as int).len() == 0);
        assert(views(out@) + sp_present(views(list@).skip(n as int), views(sel@)) =~= views(
            out@,
        ));
    }
    out
}

/// Whether `e` is active under the selection: all requirements selected, no
/// disabling option selected.
pub fn is_option_active(e: &OptionEntry, selection: &Vec<Vec<u8>>) -> (r: bool)
    ensures
        r == sp_active(e@, views(selection@)),
{
    let missing = missing_from(&e.requires_list, selection);
    let disabling = present_in(&e.disabled_by, selection);
    missing.len() == 0 && disabling.len() == 0
}

/// Why an option is unavailable under a selection: its unmet requirements
/// and the selected options that disable it.
pub struct Relationships {
    pub unmet_requires: Vec<Vec<u8>>,
    pub disabling: Vec<Vec<u8>>,
}

/// The unmet requirements and disabling options of `e` under the selection.
pub fn collect_relationships(e: &OptionEntry, selection: &Vec<Vec<u8>>) -> (r: Relationships)
    ensures
        views(r.unmet_requires@) == sp_missing(e@.requires_list, views(selection@)),
        views(r.disabling@) == sp_present(e@.disabled_by, views(selection@)),
{
    Relationships {
        unmet_requires: missing_from(&e.requires_list, selection),
        disabling: present_in(&e.disabled_by, selection),
    }
}

fn push_entry_viols(viols: &mut Vec<Violation>, e: &OptionEntry, selection: &Vec<Vec<u8>>)
    ensures
        viol_views(final(viols)@) == viol_views(old(viols)@) + sp_entry_viols(
            e@,
            views(selection@),
        ),
{
    let ghost sel = views(selection@);
    let ghost unmet = sp_missing(e@.requires_list, sel).map_values(
        |m: Seq<u8>| ViolationView::UnmetRequirement(e@.name, m),
    );
    let ghost disabled = sp_present(e@.disabled_by, sel).map_values(
        |d: Seq<u8>| ViolationView::DisabledByConflict(e@.name, d),
    );
    let missing = missing_from(&e.requires_list, selection);
    let mm = missing.len();
    let mut k: usize = 0;
    while k < mm
        invariant
            mm == missing@.len(),
            0 <= k <= mm,
            views(missing@) == sp_missing(e@.requires_list, sel),
            viol_views(viols@) == viol_views(old(viols)@) + unmet.take(k as int),
            unmet == sp_missing(e@.requires_list, sel).map_values(
                |m: Seq<u8>| ViolationView::UnmetRequirement(e@.name, m),
            ),
            sel == views(selection@),
        decreases mm - k,
    {
        let ghost prev = viols@;
        viols.push(
            Violation::UnmetRequirement {
                name: vstd::slice::slice_to_vec(e.name.as_slice()),
                missing: vstd::slice::slice_to_vec(missing[k].as_slice()),
            },
        );
        proof {
            assert(unmet[k as int] == ViolationView::UnmetRequirement(
                e@.name,
                views(missing@)[k as int],
            ));
            assert(viol_views(viols@) =~= viol_views(prev).push(unmet[k as int]));
            assert(unmet.take(k as int).push(unmet[k as int]) =~= unmet.take(k as int + 1));
            assert(viol_views(old(viols)@) + unmet.take(k as int) + seq![unmet[k as int]]
                =~= viol_views(old(viols)@) + unmet.take(k as int + 1));
        }
        k = k + 1;
    }
    proof {
        assert(unmet.take(mm as int) =~= unmet);
    }
    let disabling = present_in(&e.disabled_by, selection);
    let dd = disabling.len();
    let mut k2: usize = 0;
    while k2 < dd
        invariant
            dd == disabling@.len(),
            0 <= k2 <= dd,
            views(disabling@) == sp_present(e@.disabled_by, sel),
            viol_views(viols@) == viol_views(old(viols)@) + unmet + disabled.take(k2 as int),
            unmet == sp_missing(e@.requires_list, sel).map_values(
                |m: Seq<u8>| ViolationView::UnmetRequirement(e@.name, m),
            ),
            disabled == sp_present(e@.disabled_by, sel).map_values(
                |d: Seq<u8>| ViolationView::DisabledByConflict(e@.name, d),
            ),
            sel == views(selection@),
        decreases dd - k2,
    {
        let ghost prev = viols@;
        viols.push(
            Violation::DisabledByConflict {
                name: vstd::slice::slice_to_vec(e.name.as_slice()),
                disabled_by: vstd::slice::slice_to_vec(disabling[k2].as_slice()),
            },
        );
        proof {
            assert(disabled[k2 as int] == ViolationView::DisabledByConflict(
                e@.name,
                views(disabling@)[k2 as int],
            ));
            assert(viol_views(viols@) =~= viol_views(prev).push(disabled[k2 as int]));
            assert(disabled.take(k2 as int).push(disabled[k2 as int]) =~= disabled.take(
                k2 as int + 1,
            ));
            assert(viol_views(old(viols)@) + unmet + disabled.take(k2 as int) + seq![
                disabled[k2 as int],
            ] =~= viol_views(old(viols)@) + unmet + disabled.take(k2 as int + 1));
        }
        k2 = k2 + 1;
    }
    proof {
        assert(disabled.take(dd as int) =~= disabled);
        assert(viol_views(old(viols)@) + unmet + disabled =~= viol_views(old(viols)@) + (unmet
            + disabled));
    }
}

fn group_add(groups: &mut Vec<(Vec<u8>, Vec<Vec<u8>>)>, g: &[u8], n: &[u8])
    ensures
        groups_view(final(groups)@) == sp_group_add(groups_view(old(groups)@), g@, n@),
{
    let ghost gv = groups_view(old(groups)@);
    let len = groups.len();
    let mut j: usize = 0;
    proof {
        assert(gv.take(0) =~= Seq::<(Seq<u8>, Seq<Seq<u8>>)>::empty());
        assert(gv.skip(0) =~= gv);
        assert(Seq::<(Seq<u8>, Seq<Seq<u8>>)>::empty() + sp_group_add(gv, g@, n@)
            =~= sp_group_add(gv, g@, n@));
    }
    while j < len
        invariant
            len == groups@.len(),
            0 <= j <= len,
            gv == groups_view(old(groups)@),
            groups_view(groups@) == gv,
            sp_group_add(gv, g@, n@) == gv.take(j as int) + sp_group_add(
                gv.skip(j as int),
                g@,
                n@,
            ),
        decreases len - j,
    {
        proof {
            assert(gv.skip(j as int)[0] == gv[j as int]);
            assert(gv.skip(j as int).drop_first() =~= gv.skip(j as int + 1));
        }
        if crate::bytes::bytes_eq(groups[j].0.as_slice(), g) {
            proof {
                assert(gv[j as int] == (groups@[j as int].0@, views(groups@[j as int].1@)));
            }
            if list_contains(&groups[j].1, n) {
                proof {
                    assert(gv.skip(j as int)[0].0 == g@);
                    assert(gv.skip(j as int)[0].1.contains(n@));
                    assert(sp_group_add(gv.skip(j as int), g@, n@) == gv.skip(j as int));
                    assert(gv.take(j as int) + gv.skip(j as int) =~= gv);
                }
                return;
            }
            let ghost oldg = groups@;
            let mut entry = groups.remove(j);
            entry.1.push(vstd::slice::slice_to_vec(n));
            let ghost entry_snap = entry;
            groups.insert(j, entry);
            proof {
                let ghost target = gv.take(j as int) + (seq![(g@, gv[j as int].1.push(n@))]
                    + gv.skip(j as int + 1));
                assert(groups@ =~= oldg.update(j as int, entry_snap));
                assert(views(entry_snap.1@) =~= views(oldg[j as int].1@).push(n@));
                assert(entry_snap.0@ == g@);
                assert forall|m: int| 0 <= m < groups@.len() implies groups_view(groups@)[m]
                    == target[m] by {
                    if m == j {
                        assert(groups@[m] == entry_snap);
                        assert(gv[j as int].1 == views(oldg[j as int].1@));
                    } else {
                        assert(groups@[m] == oldg[m]);
                        assert(gv[m] == (oldg[m].0@, views(oldg[m].1@)));
                    }
                }
                assert(groups_view(groups@) =~= target);
                assert(gv.skip(j as int)[0].0 == g@);
                assert(!gv.skip(j as int)[0].1.contains(n@));
                assert(sp_group_add(gv.skip(j as int), g@, n@) == seq![
                    (g@, gv.skip(j as int)[0].1.push(n@)),
                ] + gv.skip(j as int + 1));
            }
            return;
        }
        proof {
            assert(gv[j as int].0 != g@);
            assert(sp_group_add(gv.skip(j as int), g@, n@) == seq![gv[j as int]] + sp_group_add(
                gv.skip(j as int + 1),
                g@,
                n@,
            ));
            assert(gv.take(j as int) + (seq![gv[j as int]] + sp_group_add(
                gv.skip(j as int + 1),
                g@,
                n@,
            )) =~= gv.take(j as int + 1) + sp_group_add(gv.skip(j as int + 1), g@, n@));
        }
        j = j + 1;
    }
    let mut names: Vec<Vec<u8>> = Vec::new();
    names.push(vstd::slice::slice_to_vec(n));
    let ghost oldg = groups@;
    groups.push((vstd::slice::slice_to_vec(g), names));
    proof {
        let ghost target = gv.take(len as int) + seq![(g@, seq![n@])];
        assert(gv.skip(len as int).len() == 0);
        assert(sp_group_add(gv.skip(len as int), g@, n@) == seq![(g@, seq![n@])]);
        assert(views(groups@[len as int].1@) =~= seq![n@]);
        assert forall|m: int| 0 <= m < groups@.len() implies groups_view(groups@)[m]
            == target[m] by {
            if m < len {
                assert(groups@[m] == oldg[m]);
                assert(gv[m] == (oldg[m].0@, views(oldg[m].1@)));
            } else {
                assert(groups@[m].0@ == g@);
            }
        }
        assert(groups_view(groups@) =~= target);
    }
}

/// Validates the selection against the full catalog for the given platform:
/// `Ok` iff there is no violation, otherwise every violation found, in
/// order.
#[verifier::loop_isolation(false)]
#[verifier::rlimit(100)]
pub fn validate(selection: &Vec<Vec<u8>>, platform: &[u8], options: &Vec<CatalogItem>) -> (r:
    Result<(), Vec<Violation>>)
    ensures
        ({
            let vs = sp_validate(views(selection@), platform@, sp_flat(items_view(options@)));
            match r {
                Ok(u) => vs.len() == 0,
                Err(list) => viol_views(list@) == vs && vs.len() > 0,
            }
        }),
{
    let ghost sel = views(selection@);
    let ghost fv = sp_flat(items_view(options@));
    let flat = all_options(options);
    proof {
        assert(entry_views(flat@) == fv);
        assert(fv.len() == flat@.len());
    }
    let mut viols: Vec<Violation> = Vec::new();
    let mut groups: Vec<(Vec<u8>, Vec<Vec<u8>>)> = Vec::new();
    let sn = selection.len();
    let mut idx: usize = 0;
    proof {
        assert(viol_views(viols@) =~= Seq::<ViolationView>::empty());
        assert(groups_view(groups@) =~= Seq::<(Seq<u8>, Seq<Seq<u8>>)>::empty());
    }
    while idx < sn
        invariant
            0 <= idx <= sn,
            sp_scan_selection(fv, sel, 0, platform@, (Seq::empty(), Seq::empty()))
                == sp_scan_selection(
                fv,
                sel,
                idx as int,
                platform@,
                (viol_views(viols@), groups_view(groups@)),
            ),
        decreases sn - idx,
    {
        let ghost acc0 = (viol_views(viols@), groups_view(groups@));
        let name = selection[idx].as_slice();
        proof {
            assert(name@ == sel[idx as int]);
        }
        let fn_len = flat.len();
        let mut j: usize = 0;
        let mut found = false;
        let mut found_plat = false;
        while j < fn_len
            invariant
                0 <= j <= fn_len,
                sp_check_name(fv, 0, name@, platform@, sel, acc0.0, acc0.1, false, false)
                    == sp_check_name(
                    fv,
                    j as int,
                    name@,
                    platform@,
                    sel,
                    viol_views(viols@),
                    groups_view(groups@),
                    found,
                    found_plat,
                ),
            decreases fn_len - j,
        {
            let ghost v0 = viol_views(viols@);
            let ghost g0 = groups_view(groups@);
            let ghost f0 = found;
            let ghost fp0 = found_plat;
            let e = &flat[j];
            proof {
                assert(fv[j as int] == e@);
                assert(views(e.applicable_platforms@) == e@.platforms);
            }
            if crate::bytes::bytes_eq(e.name.as_slice(), name) {
                found = true;
                let applicable = e.applicable_platforms.len() == 0 || list_contains(
                    &e.applicable_platforms,
                    platform,
                );
                proof {
                    assert(applicable == sp_applicable(e@, platform@));
                }
                if applicable {
                    found_plat = true;
                    if is_option_active(e, selection) {
                        if e.selection_group.len() > 0 {
                            group_add(&mut groups, e.selection_group.as_slice(), name);
                        }
                    } else {
                        push_entry_viols(&mut viols, e, selection);
                    }
                }
            }
            proof {
                assert(sp_check_name(fv, j as int, name@, platform@, sel, v0, g0, f0, fp0)
                    == sp_check_name(
                    fv,
                    j as int + 1,
                    name@,
                    platform@,
                    sel,
                    viol_views(viols@),
                    groups_view(groups@),
                    found,
                    found_plat,
                ));
            }
            j = j + 1;
        }
        if !found {
            let ghost prev = viols@;
            viols.push(Violation::UnknownOption { name: vstd::slice::slice_to_vec(name) });
            proof {
                assert(viol_views(viols@) =~= viol_views(prev).push(ViolationView::UnknownOption(
                    name@,
                )));
            }
        } else if !found_plat {
            let ghost prev = viols@;
            viols.push(
                Violation::UnsupportedForPlatform { name: vstd::slice::slice_to_vec(name) },
            );
            proof {
                assert(viol_views(viols@) =~= viol_views(prev).push(
                    ViolationView::UnsupportedForPlatform(name@),
                ));
            }
        }
        proof {
            assert((viol_views(viols@), groups_view(groups@)) == sp_check_name(
                fv,
                0,
                sel[idx as int],
                platform@,
                sel,
                acc0.0,
                acc0.1,
                false,
                false,
            ));
        }
        idx = idx + 1;
    }
    let ghost final_acc = (viol_views(viols@), groups_view(groups@));
    let gn = groups.len();
    let mut k: usize = 0;
    proof {
        assert(final_acc.0 + sp_group_viols(final_acc.1, 0) =~= viol_views(viols@)
            + sp_group_viols(final_acc.1, 0));
    }
    while k < gn
        invariant
            0 <= k <= gn,
            gn == groups@.len(),
            groups_view(groups@) == final_acc.1,
            sp_scan_selection(fv, sel, 0, platform@, (Seq::empty(), Seq::empty())) == final_acc,
            final_acc.0 + sp_group_viols(final_acc.1, 0) == viol_views(viols@) + sp_group_viols(
                final_acc.1,
                k as int,
            ),
        decreases gn - k,
    {
        let ghost gv = final_acc.1;
        if groups[k].1.len() > 1 {
            let ghost prev = viols@;
            let names = crate::options::clone_list(&groups[k].1);
            viols.push(
                Violation::MutuallyExclusiveConflict {
                    group: vstd::slice::slice_to_vec(groups[k].0.as_slice()),
                    names,
                },
            );
            proof {
                assert(gv[k as int] == (groups@[k as int].0@, views(groups@[k as int].1@)));
                assert(viol_views(viols@) =~= viol_views(prev).push(
                    ViolationView::MutuallyExclusiveConflict(gv[k as int].0, gv[k as int].1),
                ));
                assert(sp_group_viols(gv, k as int) == seq![
                    ViolationView::MutuallyExclusiveConflict(gv[k as int].0, gv[k as int].1),
                ] + sp_group_viols(gv, k as int + 1));
                assert(viol_views(prev) + (seq![
                    ViolationView::MutuallyExclusiveConflict(gv[k as int].0, gv[k as int].1),
                ] + sp_group_viols(gv, k as int + 1)) =~= viol_views(viols@) + sp_group_viols(
                    gv,
                    k as int + 1,
                ));
            }
        } else {
            proof {
                assert(sp_group_viols(gv, k as int) == Seq::<ViolationView>::empty()
                    + sp_group_viols(gv, k as int + 1));
                assert(viol_views(viols@) + (Seq::<ViolationView>::empty() + sp_group_viols(
                    gv,
                    k as int + 1,
                )) =~= viol_views(viols@) + sp_group_viols(gv, k as int + 1));
            }
        }
        k = k + 1;
    }
    proof {
        assert(sp_group_viols(final_acc.1, gn as int) =~= Seq::<ViolationView>::empty());
        assert(viol_views(viols@) + Seq::<ViolationView>::empty() =~= viol_views(viols@));
        assert(viol_views(viols@) == sp_validate(sel, platform@, fv));
        assert(viol_views(viols@).len() == viols@.len());
    }
    if viols.len() == 0 {
        Ok(())
    } else {
        Err(viols)
    }
}

proof fn lemma_contains_concat_left<A>(a: Seq<A>, b: Seq<A>, x: A)
    requires
        a.contains(x),
    ensures
        (a + b).contains(x),
{
    let i = choose|i: int| 0 <= i < a.len() && a[i] == x;
    assert((a + b)[i] == x);
}

proof fn lemma_contains_concat_right<A>(a: Seq<A>, b: Seq<A>, x: A)
    requires
        b.contains(x),
    ensures
        (a + b).contains(x),
{
    let i = choose|i: int| 0 <= i < b.len() && b[i] == x;
    assert((a + b)[a.len() + i] == x);
}

proof fn lemma_contains_push<A>(a: Seq<A>, y: A, x: A)
    requires
        a.contains(x),
    ensures
        a.push(y).contains(x),
{
    let i = choose|i: int| 0 <= i < a.len() && a[i] == x;
    assert(a.push(y)[i] == x);
}

/// A violation already collected survives the rest of a name's scan.
proof fn lemma_check_monotone(
    flat: Seq<OptionEntryView>,
    j: int,
    n: Seq<u8>,
    plat: Seq<u8>,
    sel: Seq<Seq<u8>>,
    viols: Seq<ViolationView>,
    groups: Seq<(Seq<u8>, Seq<Seq<u8>>)>,
    found: bool,
    found_plat: bool,
    x: ViolationView,
)
    requires
        viols.contains(x),
    ensures
        sp_check_name(flat, j, n, plat, sel, viols, groups, found, found_plat).0.contains(x),
    decreases flat.len() - j,
{
    if j >= flat.len() {
        if !found {
            lemma_contains_push(viols, ViolationView::UnknownOption(n), x);
        } else if !found_plat {
            lemma_contains_push(viols, ViolationView::UnsupportedForPlatform(n), x);
        }
    } else {
        let e = flat[j];
        if e.name != n {
            lemma_check_monotone(flat, j + 1, n, plat, sel, viols, groups, found, found_plat, x);
        } else if !sp_applicable(e, plat) {
            lemma_check_monotone(flat, j + 1, n, plat, sel, viols, groups, true, found_plat, x);
        } else if sp_active(e, sel) {
            let groups2 = if e.group.len() > 0 {
                sp_group_add(groups, e.group, n)
            } else {
                groups
            };
            lemma_check_monotone(flat, j + 1, n, plat, sel, viols, groups2, true, true, x);
        } else {
            lemma_contains_concat_left(viols, sp_entry_viols(e, sel), x);
            lemma_check_monotone(
                flat,
                j + 1,
                n,
                plat,
                sel,
                viols + sp_entry_viols(e, sel),
                groups,
                true,
                true,
                x,
            );
        }
    }
}

/// A violation already collected survives the rest of the selection scan.
proof fn lemma_scan_monotone(
    flat: Seq<OptionEntryView>,
    sel: Seq<Seq<u8>>,
    idx: int,
    plat: Seq<u8>,
    acc: (Seq<ViolationView>, Seq<(Seq<u8>, Seq<Seq<u8>>)>),
    x: ViolationView,
)
    requires
        acc.0.contains(x),
    ensures
        sp_scan_selection(flat, sel, idx, plat, acc).0.contains(x),
    decreases sel.len() - idx,
{
    if idx >= sel.len() {
    } else {
        let acc2 = sp_check_name(flat, 0, sel[idx], plat, sel, acc.0, acc.1, false, false);
        lemma_check_monotone(flat, 0, sel[idx], plat, sel, acc.0, acc.1, false, false, x);
        lemma_scan_monotone(flat, sel, idx + 1, plat, acc2, x);
    }
}

/// A name missing from the selection appears in the missing list.
proof fn lemma_missing_contains(list: Seq<Seq<u8>>, sel: Seq<Seq<u8>>, k: int)
    requires
        0 <= k < list.len(),
        !sel.contains(list[k]),
    ensures
        sp_missing(list, sel).contains(list[k]),
        sp_missing(list, sel).len() > 0,
    decreases list.len(),
{
    if k == 0 {
        assert((seq![list[0]] + sp_missing(list.drop_first(), sel))[0] == list[0]);
    } else {
        assert(list.drop_first()[k - 1] == list[k]);
        lemma_missing_contains(list.drop_first(), sel, k - 1);
        if !sel.contains(list[0]) {
            lemma_contains_concat_right(
                seq![list[0]],
                sp_missing(list.drop_first(), sel),
                list[k],
            );
        } else {
            lemma_contains_concat_right(
                Seq::<Seq<u8>>::empty(),
                sp_missing(list.drop_first(), sel),
                list[k],
            );
        }
    }
}

/// An inactive entry's violation list names each of its missing
/// requirements.
proof fn lemma_entry_viols_contains(e: OptionEntryView, sel: Seq<Seq<u8>>, k: int)
    requires
        0 <= k < e.requires_list.len(),
        !sel.contains(e.requires_list[k]),
    ensures
        sp_entry_viols(e, sel).contains(
            ViolationView::UnmetRequirement(e.name, e.requires_list[k]),
        ),
        !sp_active(e, sel),
{
    lemma_missing_contains(e.requires_list, sel, k);
    let m = e.requires_list[k];
    let missing = sp_missing(e.requires_list, sel);
    let i = choose|i: int| 0 <= i < missing.len() && missing[i] == m;
    let mapped = missing.map_values(|mm: Seq<u8>| ViolationView::UnmetRequirement(e.name, mm));
    assert(mapped[i] == ViolationView::UnmetRequirement(e.name, m));
    assert(mapped.contains(ViolationView::UnmetRequirement(e.name, m)));
    lemma_contains_concat_left(
        mapped,
        sp_present(e.disabled_by, sel).map_values(
            |d: Seq<u8>| ViolationView::DisabledByConflict(e.name, d),
        ),
        ViolationView::UnmetRequirement(e.name, m),
    );
}

/// Scanning a name whose catalog entry at position `j` is applicable but
/// lacks a requirement collects that violation.
proof fn lemma_check_hits(
    flat: Seq<OptionEntryView>,
    j0: int,
    j: int,
    n: Seq<u8>,
    plat: Seq<u8>,
    sel: Seq<Seq<u8>>,
    viols: Seq<ViolationView>,
    groups: Seq<(Seq<u8>, Seq<Seq<u8>>)>,
    found: bool,
    found_plat: bool,
    x: ViolationView,
)
    requires
        0 <= j0 <= j < flat.len(),
        flat[j].name == n,
        sp_applicable(flat[j], plat),
        !sp_active(flat[j], sel),
        sp_entry_viols(flat[j], sel).contains(x),
    ensures
        sp_check_name(flat, j0, n, plat, sel, viols, groups, found, found_plat).0.contains(x),
    decreases j - j0,
{
    let e = flat[j0];
    if j0 == j {
        lemma_contains_concat_right(viols, sp_entry_viols(e, sel), x);
        lemma_check_monotone(
            flat,
            j0 + 1,
            n,
            plat,
            sel,
            viols + sp_entry_viols(e, sel),
            groups,
            true,
            true,
            x,
        );
    } else {
        if e.name != n {
            lemma_check_hits(flat, j0 + 1, j, n, plat, sel, viols, groups, found, found_plat, x);
        } else if !sp_applicable(e, plat) {
            lemma_check_hits(flat, j0 + 1, j, n, plat, sel, viols, groups, true, found_plat, x);
        } else if sp_active(e, sel) {
            let groups2 = if e.group.len() > 0 {
                sp_group_add(groups, e.group, n)
            } else {
                groups
            };
            lemma_check_hits(flat, j0 + 1, j, n, plat, sel, viols, groups2, true, true, x);
        } else {
            lemma_check_hits(
                flat,
                j0 + 1,
                j,
                n,
                plat,
                sel,
                viols + sp_entry_viols(e, sel),
                groups,
                true,
                true,
                x,
            );
        }
    }
}

proof fn lemma_scan_hits(
    flat: Seq<OptionEntryView>,
    sel: Seq<Seq<u8>>,
    idx0: int,
    idx: int,
    j: int,
    plat: Seq<u8>,
    acc: (Seq<ViolationView>, Seq<(Seq<u8>, Seq<Seq<u8>>)>),
    x: ViolationView,
)
    requires
        0 <= idx0 <= idx < sel.len(),
        0 <= j < flat.len(),
        flat[j].name == sel[idx],
        sp_applicable(flat[j], plat),
        !sp_active(flat[j], sel),
        sp_entry_viols(flat[j], sel).contains(x),
    ensures
        sp_scan_selection(flat, sel, idx0, plat, acc).0.contains(x),
    decreases idx - idx0,
{
    let acc2 = sp_check_name(flat, 0, sel[idx0], plat, sel, acc.0, acc.1, false, false);
    if idx0 == idx {
        lemma_check_hits(flat, 0, j, sel[idx], plat, sel, acc.0, acc.1, false, false, x);
        lemma_scan_monotone(flat, sel, idx0 + 1, plat, acc2, x);
    } else {
        lemma_scan_hits(flat, sel, idx0 + 1, idx, j, plat, acc2, x);
    }
}

/// A selection naming an option whose applicable catalog entry lacks a
/// requirement never validates: the result names that option and the
/// missing requirement.
pub proof fn lemma_unmet_requirement_reported(
    sel: Seq<Seq<u8>>,
    plat: Seq<u8>,
    flat: Seq<OptionEntryView>,
    idx: int,
    j: int,
    k: int,
)
    requires
        0 <= idx < sel.len(),
        0 <= j < flat.len(),
        flat[j].name == sel[idx],
        sp_applicable(flat[j], plat),
        0 <= k < flat[j].requires_list.len(),
        !sel.contains(flat[j].requires_list[k]),
    ensures
        sp_validate(sel, plat, flat).contains(
            ViolationView::UnmetRequirement(flat[j].name, flat[j].requires_list[k]),
        ),
        sp_validate(sel, plat, flat).len() > 0,
{
    let x = ViolationView::UnmetRequirement(flat[j].name, flat[j].requires_list[k]);
    lemma_entry_viols_contains(flat[j], sel, k);
    lemma_scan_hits(flat, sel, 0, idx, j, plat, (Seq::empty(), Seq::empty()), x);
    let acc = sp_scan_selection(flat, sel, 0, plat, (Seq::empty(), Seq::empty()));
    lemma_contains_concat_left(acc.0, sp_group_viols(acc.1, 0), x);
    let i = choose|i: int|
        0 <= i < sp_validate(sel, plat, flat).len() && sp_validate(sel, plat, flat)[i] == x;
}

/// The group table records `name` under `group`.
pub open spec fn group_has(groups: Seq<(Seq<u8>, Seq<Seq<u8>>)>, g: Seq<u8>, n: Seq<u8>) -> bool {
    exists|i: int| 0 <= i < groups.len() && groups[i].0 == g && groups[i].1.contains(n)
}

/// Each group key appears at most once in the table.
pub open spec fn groups_unique(groups: Seq<(Seq<u8>, Seq<Seq<u8>>)>) -> bool {
    forall|i: int, j: int| 0 <= i < j < groups.len() ==> groups[i].0 != groups[j].0
}

proof fn lemma_group_add_has(groups: Seq<(Seq<u8>, Seq<Seq<u8>>)>, g: Seq<u8>, n: Seq<u8>)
    ensures
        group_has(sp_group_add(groups, g, n), g, n),
    decreases groups.len(),
{
    let r = sp_group_add(groups, g, n);
    if groups.len() == 0 {
        assert(r[0].1[0] == n);
        assert(r[0].1.contains(n));
    } else if groups[0].0 == g {
        if groups[0].1.contains(n) {
            assert(r[0].0 == g && r[0].1.contains(n));
        } else {
            assert(r[0].1[groups[0].1.len() as int] == n);
            assert(r[0].0 == g && r[0].1.contains(n));
        }
    } else {
        lemma_group_add_has(groups.drop_first(), g, n);
        let sub = sp_group_add(groups.drop_first(), g, n);
        let i = choose|i: int| 0 <= i < sub.len() && sub[i].0 == g && sub[i].1.contains(n);
        assert(r[i + 1] == sub[i]);
    }
}

proof fn lemma_group_add_preserves(
    groups: Seq<(Seq<u8>, Seq<Seq<u8>>)>,
    g: Seq<u8>,
    n: Seq<u8>,
    g2: Seq<u8>,
    n2: Seq<u8>,
)
    requires
        group_has(groups, g2, n2),
    ensures
        group_has(sp_group_add(groups, g, n), g2, n2),
    decreases groups.len(),
{
    let r = sp_group_add(groups, g, n);
    let w = choose|i: int| 0 <= i < groups.len() && groups[i].0 == g2 && groups[i].1.contains(n2);
    if groups.len() == 0 {
    } else if groups[0].0 == g {
        if groups[0].1.contains(n) {
        } else {
            if w == 0 {
                let names = groups[0].1;
                let a = choose|a: int| 0 <= a < names.len() && names[a] == n2;
                assert(r[0].1[a] == n2);
                assert(r[0].0 == g2 && r[0].1.contains(n2));
            } else {
                assert(r[w] == groups[w]);
            }
        }
    } else {
        if w == 0 {
            assert(r[0] == groups[0]);
        } else {
            assert(groups.drop_first()[w - 1] == groups[w]);
            assert(group_has(groups.drop_first(), g2, n2));
            lemma_group_add_preserves(groups.drop_first(), g, n, g2, n2);
            let sub = sp_group_add(groups.drop_first(), g, n);
            let i = choose|i: int| 0 <= i < sub.len() && sub[i].0 == g2 && sub[i].1.contains(n2);
            assert(r[i + 1] == sub[i]);
        }
    }
}

proof fn lemma_group_add_key_origin(
    groups: Seq<(Seq<u8>, Seq<Seq<u8>>)>,
    g: Seq<u8>,
    n: Seq<u8>,
    i: int,
)
    requires
        0 <= i < sp_group_add(groups, g, n).len(),
    ensures
        sp_group_add(groups, g, n)[i].0 == g || exists|m: int|
            0 <= m < groups.len() && #[trigger] groups[m].0 == sp_group_add(groups, g, n)[i].0,
    decreases groups.len(),
{
    let r = sp_group_add(groups, g, n);
    if groups.len() == 0 {
    } else if groups[0].0 == g {
    } else {
        if i == 0 {
            assert(groups[0].0 == r[0].0);
        } else {
            lemma_group_add_key_origin(groups.drop_first(), g, n, i - 1);
            let sub = sp_group_add(groups.drop_first(), g, n);
            assert(r[i] == sub[i - 1]);
            if sub[i - 1].0 == g {
            } else {
                let m = choose|m: int|
                    0 <= m < groups.drop_first().len() && #[trigger] groups.drop_first()[m].0
                        == sub[i - 1].0;
                assert(groups[m + 1].0 == sub[i - 1].0);
            }
        }
    }
}

proof fn lemma_group_add_unique(groups: Seq<(Seq<u8>, Seq<Seq<u8>>)>, g: Seq<u8>, n: Seq<u8>)
    requires
        groups_unique(groups),
    ensures
        groups_unique(sp_group_add(groups, g, n)),
    decreases groups.len(),
{
    let r = sp_group_add(groups, g, n);
    if groups.len() == 0 {
    } else if groups[0].0 == g {
        if groups[0].1.contains(n) {
        } else {
            assert forall|i: int, j: int| 0 <= i < j < r.len() implies r[i].0 != r[j].0 by {
                assert(r[j] == groups[j]);
                if i == 0 {
                    assert(r[0].0 == groups[0].0);
                } else {
                    assert(r[i] == groups[i]);
                }
            }
        }
    } else {
        assert(groups_unique(groups.drop_first())) by {
            assert forall|i: int, j: int|
                0 <= i < j < groups.drop_first().len() implies groups.drop_first()[i].0
                != groups.drop_first()[j].0 by {
                assert(groups.drop_first()[i] == groups[i + 1]);
                assert(groups.drop_first()[j] == groups[j + 1]);
            }
        }
        lemma_group_add_unique(groups.drop_first(), g, n);
        let sub = sp_group_add(groups.drop_first(), g, n);
        assert forall|i: int, j: int| 0 <= i < j < r.len() implies r[i].0 != r[j].0 by {
            if i == 0 {
                assert(r[0] == groups[0]);
                assert(r[j] == sub[j - 1]);
                lemma_group_add_key_origin(groups.drop_first(), g, n, j - 1);
                if sub[j - 1].0 == g {
                } else {
                    let m = choose|m: int|
                        0 <= m < groups.drop_first().len() && #[trigger] groups.drop_first()[m].0
                            == sub[j - 1].0;
                    assert(groups.drop_first()[m] == groups[m + 1]);
                }
            } else {
                assert(r[i] == sub[i - 1]);
                assert(r[j] == sub[j - 1]);
            }
        }
    }
}

/// Group records survive, and the table stays key-unique through, the rest
/// of a name's scan.
proof fn lemma_check_group_preserved(
    flat: Seq<OptionEntryView>,
    j: int,
    n: Seq<u8>,
    plat: Seq<u8>,
    sel: Seq<Seq<u8>>,
    viols: Seq<ViolationView>,
    groups: Seq<(Seq<u8>, Seq<Seq<u8>>)>,
    found: bool,
    found_plat: bool,
    g2: Seq<u8>,
    n2: Seq<u8>,
)
    requires
        group_has(groups, g2, n2),
        groups_unique(groups),
    ensures
        group_has(sp_check_name(flat, j, n, plat, sel, viols, groups, found, found_plat).1, g2, n2),
        groups_unique(sp_check_name(flat, j, n, plat, sel, viols, groups, found, found_plat).1),
    decreases flat.len() - j,
{
    if j >= flat.len() {
    } else {
        let e = flat[j];
        if e.name != n {
            lemma_check_group_preserved(
                flat, j + 1, n, plat, sel, viols, groups, found, found_plat, g2, n2);
        } else if !sp_applicable(e, plat) {
            lemma_check_group_preserved(
                flat, j + 1, n, plat, sel, viols, groups, true, found_plat, g2, n2);
        } else if sp_active(e, sel) {
            if e.group.len() > 0 {
                lemma_group_add_preserves(groups, e.group, n, g2, n2);
                lemma_group_add_unique(groups, e.group, n);
                lemma_check_group_preserved(
                    flat, j + 1, n, plat, sel, viols, sp_group_add(groups, e.group, n), true,
                    true, g2, n2);
            } else {
                lemma_check_group_preserved(
                    flat, j + 1, n, plat, sel, viols, groups, true, true, g2, n2);
            }
        } else {
            lemma_check_group_preserved(
                flat, j + 1, n, plat, sel, viols + sp_entry_viols(e, sel), groups, true, true,
                g2, n2);
        }
    }
}

/// The same, without a record to preserve: the table just stays key-unique.
proof fn lemma_check_group_unique(
    flat: Seq<OptionEntryView>,
    j: int,
    n: Seq<u8>,
    plat: Seq<u8>,
    sel: Seq<Seq<u8>>,
    viols: Seq<ViolationView>,
    groups: Seq<(Seq<u8>, Seq<Seq<u8>>)>,
    found: bool,
    found_plat: bool,
)
    requires
        groups_unique(groups),
    ensures
        groups_unique(sp_check_name(flat, j, n, plat, sel, viols, groups, found, found_plat).1),
    decreases flat.len() - j,
{
    if j >= flat.len() {
    } else {
        let e = flat[j];
        if e.name != n {
            lemma_check_group_unique(flat, j + 1, n, plat, sel, viols, groups, found, found_plat);
        } else if !sp_applicable(e, plat) {
            lemma_check_group_unique(flat, j + 1, n, plat, sel, viols, groups, true, found_plat);
        } else if sp_active(e, sel) {
            if e.group.len() > 0 {
                lemma_group_add_unique(groups, e.group, n);
                lemma_check_group_unique(
                    flat, j + 1, n, plat, sel, viols, sp_group_add(groups, e.group, n), true,
                    true);
            } else {
                lemma_check_group_unique(flat, j + 1, n, plat, sel, viols, groups, true, true);
            }
        } else {
            lemma_check_group_unique(
                flat, j + 1, n, plat, sel, viols + sp_entry_viols(e, sel), groups, true, true);
        }
    }
}

/// Scanning a name whose entry at `j` is active and grouped records it.
proof fn lemma_check_group_hits(
    flat: Seq<OptionEntryView>,
    j0: int,
    j: int,
    n: Seq<u8>,
    plat: Seq<u8>,
    sel: Seq<Seq<u8>>,
    viols: Seq<ViolationView>,
    groups: Seq<(Seq<u8>, Seq<Seq<u8>>)>,
    found: bool,
    found_plat: bool,
)
    requires
        0 <= j0 <= j < flat.len(),
        flat[j].name == n,
        sp_applicable(flat[j], plat),
        sp_active(flat[j], sel),
        flat[j].group.len() > 0,
        groups_unique(groups),
    ensures
        group_has(
            sp_check_name(flat, j0, n, plat, sel, viols, groups, found, found_plat).1,
            flat[j].group,
            n,
        ),
        groups_unique(sp_check_name(flat, j0, n, plat, sel, viols, groups, found, found_plat).1),
    decreases j - j0,
{
    let e = flat[j0];
    if j0 == j {
        lemma_group_add_has(groups, e.group, n);
        lemma_group_add_unique(groups, e.group, n);
        lemma_check_group_preserved(
            flat, j0 + 1, n, plat, sel, viols, sp_group_add(groups, e.group, n), true, true,
            e.group, n);
    } else {
        if e.name != n {
            lemma_check_group_hits(
                flat, j0 + 1, j, n, plat, sel, viols, groups, found, found_plat);
        } else if !sp_applicable(e, plat) {
            lemma_check_group_hits(flat, j0 + 1, j, n, plat, sel, viols, groups, true, found_plat);
        } else if sp_active(e, sel) {
            if e.group.len() > 0 {
                lemma_group_add_unique(groups, e.group, n);
                lemma_check_group_hits(
                    flat, j0 + 1, j, n, plat, sel, viols, sp_group_add(groups, e.group, n),
                    true, true);
            } else {
                lemma_check_group_hits(flat, j0 + 1, j, n, plat, sel, viols, groups, true, true);
            }
        } else {
            lemma_check_group_hits(
                flat, j0 + 1, j, n, plat, sel, viols + sp_entry_viols(e, sel), groups, true,
                true);
        }
    }
}

proof fn lemma_scan_group_preserved(
    flat: Seq<OptionEntryView>,
    sel: Seq<Seq<u8>>,
    idx: int,
    plat: Seq<u8>,
    acc: (Seq<ViolationView>, Seq<(Seq<u8>, Seq<Seq<u8>>)>),
    g2: Seq<u8>,
    n2: Seq<u8>,
)
    requires
        group_has(acc.1, g2, n2),
        groups_unique(acc.1),
    ensures
        group_has(sp_scan_selection(flat, sel, idx, plat, acc).1, g2, n2),
        groups_unique(sp_scan_selection(flat, sel, idx, plat, acc).1),
    decreases sel.len() - idx,
{
    if idx >= sel.len() {
    } else {
        let acc2 = sp_check_name(flat, 0, sel[idx], plat, sel, acc.0, acc.1, false, false);
        lemma_check_group_preserved(
            flat, 0, sel[idx], plat, sel, acc.0, acc.1, false, false, g2, n2);
        lemma_scan_group_preserved(flat, sel, idx + 1, plat, acc2, g2, n2);
    }
}

proof fn lemma_scan_group_hits(
    flat: Seq<OptionEntryView>,
    sel: Seq<Seq<u8>>,
    idx0: int,
    idx: int,
    j: int,
    plat: Seq<u8>,
    acc: (Seq<ViolationView>, Seq<(Seq<u8>, Seq<Seq<u8>>)>),
)
    requires
        0 <= idx0 <= idx < sel.len(),
        0 <= j < flat.len(),
        flat[j].name == sel[idx],
        sp_applicable(flat[j], plat),
        sp_active(flat[j], sel),
        flat[j].group.len() > 0,
        groups_unique(acc.1),
    ensures
        group_has(sp_scan_selection(flat, sel, idx0, plat, acc).1, flat[j].group, sel[idx]),
        groups_unique(sp_scan_selection(flat, sel, idx0, plat, acc).1),
    decreases idx - idx0,
{
    let acc2 = sp_check_name(flat, 0, sel[idx0], plat, sel, acc.0, acc.1, false, false);
    if idx0 == idx {
        lemma_check_group_hits(flat, 0, j, sel[idx], plat, sel, acc.0, acc.1, false, false);
        lemma_scan_group_preserved(flat, sel, idx0 + 1, plat, acc2, flat[j].group, sel[idx]);
    } else {
        lemma_check_group_unique(flat, 0, sel[idx0], plat, sel, acc.0, acc.1, false, false);
        lemma_scan_group_hits(flat, sel, idx0 + 1, idx, j, plat, acc2);
    }
}

proof fn lemma_group_viols_contains(groups: Seq<(Seq<u8>, Seq<Seq<u8>>)>, k0: int, i: int)
    requires
        0 <= k0 <= i < groups.len(),
        groups[i].1.len() > 1,
    ensures
        sp_group_viols(groups, k0).contains(
            ViolationView::MutuallyExclusiveConflict(groups[i].0, groups[i].1),
        ),
    decreases i - k0,
{
    let x = ViolationView::MutuallyExclusiveConflict(groups[i].0, groups[i].1);
    if k0 == i {
        assert(seq![x][0] == x);
        assert(seq![x].contains(x));
        lemma_contains_concat_left(seq![x], sp_group_viols(groups, k0 + 1), x);
    } else {
        lemma_group_viols_contains(groups, k0 + 1, i);
        if groups[k0].1.len() > 1 {
            lemma_contains_concat_right(
                seq![ViolationView::MutuallyExclusiveConflict(groups[k0].0, groups[k0].1)],
                sp_group_viols(groups, k0 + 1),
                x,
            );
        } else {
            lemma_contains_concat_right(
                Seq::<ViolationView>::empty(),
                sp_group_viols(groups, k0 + 1),
                x,
            );
        }
    }
}

/// Two distinct selected options sharing a non-empty selection group, each
/// active and applicable for the platform, never validate together: the
/// result holds a mutual-exclusion conflict for that group naming both,
/// whatever the order of selection.
pub proof fn lemma_mutual_exclusion_reported(
    sel: Seq<Seq<u8>>,
    plat: Seq<u8>,
    flat: Seq<OptionEntryView>,
    idx1: int,
    idx2: int,
    j1: int,
    j2: int,
)
    requires
        0 <= idx1 < sel.len(),
        0 <= idx2 < sel.len(),
        sel[idx1] != sel[idx2],
        0 <= j1 < flat.len(),
        0 <= j2 < flat.len(),
        flat[j1].name == sel[idx1],
        flat[j2].name == sel[idx2],
        sp_applicable(flat[j1], plat),
        sp_applicable(flat[j2], plat),
        sp_active(flat[j1], sel),
        sp_active(flat[j2], sel),
        flat[j1].group == flat[j2].group,
        flat[j1].group.len() > 0,
    ensures
        exists|names: Seq<Seq<u8>>|
            #![trigger names.contains(sel[idx1])]
            sp_validate(sel, plat, flat).contains(
                ViolationView::MutuallyExclusiveConflict(flat[j1].group, names),
            ) && names.contains(sel[idx1]) && names.contains(sel[idx2]),
        sp_validate(sel, plat, flat).len() > 0,
{
    let g = flat[j1].group;
    let acc0 = (Seq::<ViolationView>::empty(), Seq::<(Seq<u8>, Seq<Seq<u8>>)>::empty());
    lemma_scan_group_hits(flat, sel, 0, idx1, j1, plat, acc0);
    lemma_scan_group_hits(flat, sel, 0, idx2, j2, plat, acc0);
    let acc = sp_scan_selection(flat, sel, 0, plat, acc0);
    let w1 = choose|i: int| 0 <= i < acc.1.len() && acc.1[i].0 == g && acc.1[i].1.contains(
        sel[idx1],
    );
    let w2 = choose|i: int| 0 <= i < acc.1.len() && acc.1[i].0 == g && acc.1[i].1.contains(
        sel[idx2],
    );
    assert(w1 == w2) by {
        if w1 != w2 {
            assert(acc.1[w1].0 == acc.1[w2].0);
        }
    }
    let names = acc.1[w1].1;
    assert(names.len() > 1) by {
        let a = choose|a: int| 0 <= a < names.len() && names[a] == sel[idx1];
        let b = choose|b: int| 0 <= b < names.len() && names[b] == sel[idx2];
        assert(a != b);
    }
    lemma_group_viols_contains(acc.1, 0, w1);
    lemma_contains_concat_right(
        acc.0,
        sp_group_viols(acc.1, 0),
        ViolationView::MutuallyExclusiveConflict(g, names),
    );
    assert(sp_validate(sel, plat, flat).contains(
        ViolationView::MutuallyExclusiveConflict(g, names),
    ) && names.contains(sel[idx1]) && names.contains(sel[idx2]));
    let i = choose|i: int|
        0 <= i < sp_validate(sel, plat, flat).len() && sp_validate(sel, plat, flat)[i]
            == ViolationView::MutuallyExclusiveConflict(g, names);
}

} // verus!
