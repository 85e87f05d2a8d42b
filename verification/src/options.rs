//! The option catalog: a tree of categories and option entries, with
//! per-option platform applicability, dependencies, conflicts and grouping.

use crate::bytes::{list_contains, views};
use vstd::prelude::*;

verus! {

/// One selectable option. Several entries may share a name to carry
/// platform-specific metadata variants of the same option.
pub struct OptionEntry {
    /// The option's unique identifier (stable across platform variants).
    pub name: Vec<u8>,
    /// Platforms this entry applies to; empty means all platforms.
    pub applicable_platforms: Vec<Vec<u8>>,
    /// Options that must also be selected for this one to be active.
    pub requires_list: Vec<Vec<u8>>,
    /// Options whose presence invalidates this one.
    pub disabled_by: Vec<Vec<u8>>,
    /// Mutual-exclusion group; empty means ungrouped.
    pub selection_group: Vec<u8>,
}

/// The mathematical value of an option entry.
pub ghost struct OptionEntryView {
    pub name: Seq<u8>,
    pub platforms: Seq<Seq<u8>>,
    pub requires_list: Seq<Seq<u8>>,
    pub disabled_by: Seq<Seq<u8>>,
    pub group: Seq<u8>,
}

impl View for OptionEntry {
    type V = OptionEntryView;

    open spec fn view(&self) -> OptionEntryView {
        OptionEntryView {
            name: self.name@,
            platforms: views(self.applicable_platforms@),
            requires_list: views(self.requires_list@),
            disabled_by: views(self.disabled_by@),
            group: self.selection_group@,
        }
    }
}

/// A grouping node: an ordered sequence of children.
pub struct Category {
    pub options: Vec<CatalogItem>,
}

/// A node of the option tree: a leaf option or a nested category.
pub enum CatalogItem {
    Entry(OptionEntry),
    Category(Category),
}

/// The mathematical value of a catalog node.
pub ghost enum CatalogItemView {
    Entry(OptionEntryView),
    Category(Seq<CatalogItemView>),
}

/// The mathematical value of one catalog node.
pub open spec fn item_view(it: CatalogItem) -> CatalogItemView
    decreases it,
{
    match it {
        CatalogItem::Entry(e) => CatalogItemView::Entry(e@),
        CatalogItem::Category(c) => CatalogItemView::Category(items_view(c.options@)),
    }
}

/// The mathematical value of a catalog level.
pub open spec fn items_view(items: Seq<CatalogItem>) -> Seq<CatalogItemView>
    decreases items,
{
    if items.len() == 0 {
        Seq::empty()
    } else {
        seq![item_view(items[0])] + items_view(items.drop_first())
    }
}

/// The views of a list of option entries.
pub open spec fn entry_views(l: Seq<OptionEntry>) -> Seq<OptionEntryView> {
    l.map_values(|e: OptionEntry| e@)
}

/// Appending one item appends its view.
pub proof fn lemma_items_view_push(s: Seq<CatalogItem>, x: CatalogItem)
    ensures
        items_view(s.push(x)) == items_view(s) + seq![item_view(x)],
    decreases s,
{
    if s.len() == 0 {
        assert(s.push(x)[0] == x);
        assert(s.push(x).drop_first() =~= Seq::<CatalogItem>::empty());
        assert(items_view(Seq::<CatalogItem>::empty()) == Seq::<CatalogItemView>::empty());
        assert(items_view(s.push(x)) == seq![item_view(x)] + Seq::<CatalogItemView>::empty());
        assert(items_view(s) == Seq::<CatalogItemView>::empty());
        assert(seq![item_view(x)] + Seq::<CatalogItemView>::empty() =~= items_view(s) + seq![
            item_view(x),
        ]);
    } else {
        assert(s.push(x).drop_first() =~= s.drop_first().push(x));
        lemma_items_view_push(s.drop_first(), x);
        assert(s.push(x)[0] == s[0]);
        assert(items_view(s.push(x)) == seq![item_view(s[0])] + (items_view(s.drop_first())
            + seq![item_view(x)]));
        assert(seq![item_view(s[0])] + (items_view(s.drop_first()) + seq![item_view(x)]) =~= (
        seq![item_view(s[0])] + items_view(s.drop_first())) + seq![item_view(x)]);
        assert(items_view(s) == seq![item_view(s[0])] + items_view(s.drop_first()));
    }
}

/// Indexing into `items_view` is the view of the indexed item.
pub proof fn lemma_items_view_index(items: Seq<CatalogItem>)
    ensures
        items_view(items).len() == items.len(),
        forall|j: int|
            0 <= j < items.len() ==> items_view(items)[j] == item_view(#[trigger] items[j]),
    decreases items,
{
    if items.len() > 0 {
        lemma_items_view_index(items.drop_first());
        assert forall|j: int| 0 <= j < items.len() implies items_view(items)[j] == item_view(
            items[j],
        ) by {
            if j > 0 {
                assert(items.drop_first()[j - 1] == items[j]);
            }
        }
    }
}

/// All option entries of a catalog level, depth first.
pub open spec fn sp_flat(items: Seq<CatalogItemView>) -> Seq<OptionEntryView>
    decreases items,
{
    if items.len() == 0 {
        Seq::empty()
    } else {
        sp_flat_item(items[0]) + sp_flat(items.drop_first())
    }
}

/// All option entries under one catalog node, depth first.
pub open spec fn sp_flat_item(it: CatalogItemView) -> Seq<OptionEntryView>
    decreases it,
{
    match it {
        CatalogItemView::Entry(e) => seq![e],
        CatalogItemView::Category(children) => sp_flat(children),
    }
}

fn clone_bytes(v: &Vec<u8>) -> (r: Vec<u8>)
    ensures
        r@ == v@,
{
    vstd::slice::slice_to_vec(v.as_slice())
}

pub fn clone_list(v: &Vec<Vec<u8>>) -> (r: Vec<Vec<u8>>)
    ensures
        views(r@) == views(v@),
{
    let mut out: Vec<Vec<u8>> = Vec::new();
    let n = v.len();
    let mut i: usize = 0;
    while i < n
        invariant
            n == v@.len(),
            0 <= i <= n,
            out@.len() == i,
            forall|k: int| 0 <= k < i ==> out@[k]@ == v@[k]@,
        decreases n - i,
    {
        out.push(clone_bytes(&v[i]));
        i = i + 1;
    }
    proof {
        assert(views(out@) =~= views(v@));
    }
    out
}

/// A copy of one option entry, equal in value.
pub fn clone_entry(e: &OptionEntry) -> (r: OptionEntry)
    ensures
        r@ == e@,
{
    OptionEntry {
        name: clone_bytes(&e.name),
        applicable_platforms: clone_list(&e.applicable_platforms),
        requires_list: clone_list(&e.requires_list),
        disabled_by: clone_list(&e.disabled_by),
        selection_group: clone_bytes(&e.selection_group),
    }
}

/// All option entries of the catalog, flattened depth first.
pub fn all_options(items: &Vec<CatalogItem>) -> (r: Vec<OptionEntry>)
    ensures
        entry_views(r@) == sp_flat(items_view(items@)),
    decreases items@,
{
    let mut out: Vec<OptionEntry> = Vec::new();
    let n = items.len();
    let mut j: usize = 0;
    proof {
        lemma_items_view_index(items@);
        assert(items_view(items@).skip(0) =~= items_view(items@));
        assert(entry_views(out@) + sp_flat(items_view(items@)) =~= sp_flat(items_view(items@)));
    }
    while j < n
        invariant
            n == items@.len(),
            0 <= j <= n,
            items_view(items@).len() == items@.len(),
            forall|k: int|
                0 <= k < items@.len() ==> items_view(items@)[k] == item_view(
                    #[trigger] items@[k],
                ),
            sp_flat(items_view(items@)) == entry_views(out@) + sp_flat(
                items_view(items@).skip(j as int),
            ),
        decreases n - j,
    {
        let ghost iv = items_view(items@);
        proof {
            assert(iv.skip(j as int)[0] == iv[j as int]);
            assert(iv.skip(j as int).drop_first() =~= iv.skip(j as int + 1));
        }
        match &items[j] {
            CatalogItem::Entry(e) => {
                let ghost prev = out@;
                out.push(clone_entry(e));
                proof {
                    assert(sp_flat_item(iv[j as int]) == seq![e@]);
                    assert(sp_flat(iv.skip(j as int)) == seq![e@] + sp_flat(
                        iv.skip(j as int + 1),
                    ));
                    assert(entry_views(out@) =~= entry_views(prev).push(e@));
                    assert(entry_views(prev) + (seq![e@] + sp_flat(iv.skip(j as int + 1)))
                        =~= entry_views(out@) + sp_flat(iv.skip(j as int + 1)));
                }
            },
            CatalogItem::Category(c) => {
                proof {
                    assert(decreases_to!(items@ => items@[j as int]));
                }
                let mut sub = all_options(&c.options);
                let ghost prev = out@;
                let ghost subv = sub@;
                out.append(&mut sub);
                proof {
                    assert(entry_views(out@) =~= entry_views(prev) + entry_views(subv));
                    assert(sp_flat_item(iv[j as int]) == sp_flat(items_view(c.options@)));
                    assert(sp_flat(iv.skip(j as int)) == sp_flat_item(iv[j as int]) + sp_flat(
                        iv.skip(j as int + 1),
                    ));
                    assert((entry_views(prev) + entry_views(subv)) + sp_flat(
                        iv.skip(j as int + 1),
                    ) =~= entry_views(prev) + (sp_flat_item(iv[j as int]) + sp_flat(
                        iv.skip(j as int + 1),
                    )));
                }
            },
        }
        j = j + 1;
    }
    proof {
        assert(items_view(items@).skip(n as int).len() == 0);
        assert(entry_views(out@) + sp_flat(items_view(items@).skip(n as int)) =~= entry_views(
            out@,
        ));
    }
    out
}

/// The first option entry with the given name, depth first, if any.
pub open spec fn sp_find_option(flat: Seq<OptionEntryView>, name: Seq<u8>) -> Option<
    OptionEntryView,
>
    decreases flat.len(),
{
    if flat.len() == 0 {
        None
    } else if flat[0].name == name {
        Some(flat[0])
    } else {
        sp_find_option(flat.drop_first(), name)
    }
}

/// The first option entry named `name` in the catalog, depth first.
pub fn find_option(name: &[u8], items: &Vec<CatalogItem>) -> (r: Option<OptionEntry>)
    ensures
        match r {
            Some(e) => sp_find_option(sp_flat(items_view(items@)), name@) == Some(e@),
            None => sp_find_option(sp_flat(items_view(items@)), name@) is None,
        },
{
    let flat = all_options(items);
    let n = flat.len();
    let mut i: usize = 0;
    proof {
        assert(entry_views(flat@).skip(0) =~= entry_views(flat@));
    }
    while i < n
        invariant
            n == flat@.len(),
            0 <= i <= n,
            entry_views(flat@) == sp_flat(items_view(items@)),
            sp_find_option(entry_views(flat@), name@) == sp_find_option(
                entry_views(flat@).skip(i as int),
                name@,
            ),
        decreases n - i,
    {
        let ghost fv = entry_views(flat@);
        proof {
            assert(fv.skip(i as int)[0] == fv[i as int]);
            assert(fv.skip(i as int).drop_first() =~= fv.skip(i as int + 1));
        }
        if crate::bytes::bytes_eq(flat[i].name.as_slice(), name) {
            return Some(clone_entry(&flat[i]));
        }
        i = i + 1;
    }
    proof {
        assert(entry_views(flat@).skip(n as int).len() == 0);
    }
    None
}

/// Whether an entry applies to `plat`: an empty platform list means all.
pub open spec fn sp_applicable(e: OptionEntryView, plat: Seq<u8>) -> bool {
    e.platforms.len() == 0 || e.platforms.contains(plat)
}

/// A catalog level with platform-incompatible entries removed and emptied
/// categories dropped.
pub open spec fn sp_prune(items: Seq<CatalogItemView>, plat: Seq<u8>) -> Seq<CatalogItemView>
    decreases items,
{
    if items.len() == 0 {
        Seq::empty()
    } else {
        sp_prune_item(items[0], plat) + sp_prune(items.drop_first(), plat)
    }
}

/// Zero or one surviving node for one catalog node.
pub open spec fn sp_prune_item(it: CatalogItemView, plat: Seq<u8>) -> Seq<CatalogItemView>
    decreases it,
{
    match it {
        CatalogItemView::Entry(e) => if sp_applicable(e, plat) {
            seq![it]
        } else {
            Seq::empty()
        },
        CatalogItemView::Category(children) => {
            let pruned = sp_prune(children, plat);
            if pruned.len() == 0 {
                Seq::empty()
            } else {
                seq![CatalogItemView::Category(pruned)]
            }
        },
    }
}

fn prune_level(items: &Vec<CatalogItem>, platform: &[u8]) -> (r: Vec<CatalogItem>)
    ensures
        items_view(r@) == sp_prune(items_view(items@), platform@),
    decreases items@,
{
    let mut out: Vec<CatalogItem> = Vec::new();
    let n = items.len();
    let mut j: usize = 0;
    proof {
        lemma_items_view_index(items@);
        assert(items_view(items@).skip(0) =~= items_view(items@));
        assert(items_view(out@) =~= Seq::<CatalogItemView>::empty());
    }
    while j < n
        invariant
            n == items@.len(),
            0 <= j <= n,
            items_view(items@).len() == items@.len(),
            forall|k: int|
                0 <= k < items@.len() ==> items_view(items@)[k] == item_view(
                    #[trigger] items@[k],
                ),
            sp_prune(items_view(items@), platform@) == items_view(out@) + sp_prune(
                items_view(items@).skip(j as int),
                platform@,
            ),
        decreases n - j,
    {
        let ghost iv = items_view(items@);
        proof {
            assert(iv.skip(j as int)[0] == iv[j as int]);
            assert(iv.skip(j as int).drop_first() =~= iv.skip(j as int + 1));
        }
        match &items[j] {
            CatalogItem::Entry(e) => {
                let keep = e.applicable_platforms.len() == 0 || list_contains(
                    &e.applicable_platforms,
                    platform,
                );
                proof {
                    assert(keep == sp_applicable(e@, platform@));
                }
                if keep {
                    let cloned = clone_entry(e);
                    let ghost prev = out@;
                    let ghost pushed = CatalogItem::Entry(cloned);
                    out.push(CatalogItem::Entry(cloned));
                    proof {
                        lemma_items_view_push(prev, pushed);
                        assert(item_view(pushed) == CatalogItemView::Entry(e@));
                        assert(sp_prune_item(iv[j as int], platform@) == seq![
                            CatalogItemView::Entry(e@),
                        ]);
                        assert((items_view(prev) + seq![item_view(pushed)]) + sp_prune(
                            iv.skip(j as int + 1),
                            platform@,
                        ) =~= items_view(prev) + (sp_prune_item(iv[j as int], platform@)
                            + sp_prune(iv.skip(j as int + 1), platform@)));
                    }
                } else {
                    proof {
                        assert(sp_prune_item(iv[j as int], platform@) =~= Seq::<
                            CatalogItemView,
                        >::empty());
                        assert(items_view(out@) + (sp_prune_item(iv[j as int], platform@)
                            + sp_prune(iv.skip(j as int + 1), platform@)) =~= items_view(out@)
                            + sp_prune(iv.skip(j as int + 1), platform@));
                    }
                }
            },
            CatalogItem::Category(c) => {
                proof {
                    assert(decreases_to!(items@ => items@[j as int]));
                }
                let sub = prune_level(&c.options, platform);
                proof {
                    lemma_items_view_index(sub@);
                }
                if sub.len() > 0 {
                    let ghost prev = out@;
                    let ghost subv = items_view(sub@);
                    let ghost pushed_view = CatalogItemView::Category(subv);
                    out.push(CatalogItem::Category(Category { options: sub }));
                    proof {
                        lemma_items_view_push(prev, out@.last());
                        assert(item_view(out@.last()) == pushed_view);
                        assert(sp_prune_item(iv[j as int], platform@) == seq![pushed_view]);
                        assert((items_view(prev) + seq![pushed_view]) + sp_prune(
                            iv.skip(j as int + 1),
                            platform@,
                        ) =~= items_view(prev) + (sp_prune_item(iv[j as int], platform@)
                            + sp_prune(iv.skip(j as int + 1), platform@)));
                    }
                } else {
                    proof {
                        assert(sp_prune_item(iv[j as int], platform@) =~= Seq::<
                            CatalogItemView,
                        >::empty());
                        assert(items_view(out@) + (sp_prune_item(iv[j as int], platform@)
                            + sp_prune(iv.skip(j as int + 1), platform@)) =~= items_view(out@)
                            + sp_prune(iv.skip(j as int + 1), platform@));
                    }
                }
            },
        }
        j = j + 1;
    }
    proof {
        assert(items_view(items@).skip(n as int).len() == 0);
        assert(items_view(out@) + sp_prune(items_view(items@).skip(n as int), platform@)
            =~= items_view(out@));
    }
    out
}

/// Removes from the catalog every option entry not applicable to the given
/// platform, and every category thereby left without children.
pub fn remove_incompatible_chip_options(platform: &[u8], options: &mut Vec<CatalogItem>)
    ensures
        items_view(final(options)@) == sp_prune(items_view(old(options)@), platform@),
{
    let pruned = prune_level(&*options, platform);
    *options = pruned;
}

} // verus!
