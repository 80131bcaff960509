//! The decomposition plan: a registry of the file's types, their `impl`
//! blocks and the remaining items, built in one pass; then the list of
//! module units, with unique names, and the text around each unit's
//! declarations.

use vstd::prelude::*;
use vstd::string::*;
use crate::decl::{ImplDecl, Item};
use crate::methods::{
    ImplBlockAnalyzer, MethodGroup, MethodModel, fn_fits, grouping, index_models, method_of,
    model_lines, suggested_name,
};
use crate::scope::{ScopeAnalyzer, ImplBlockInfo, FieldVisibility};
use crate::text::{lowercase, lower_of, same_text, decimal, decimal_of};

verus! {

/// A struct or enum of the file.
#[derive(Debug)]
pub struct TypeInfo {
    /// Its name.
    pub name: String,
    /// Index of its definition among the file's items.
    pub item: usize,
    /// Line count of the definition's compact token form.
    pub token_lines: usize,
}

/// An inherent `impl` block kept whole with its type.
#[derive(Debug)]
pub struct ImplRef {
    /// Index of the owning type in the registry.
    pub owner: usize,
    /// Index of the block among the file's items.
    pub item: usize,
    /// Line count of the block's compact token form.
    pub token_lines: usize,
}

/// A trait implementation of a known type.
#[derive(Debug)]
pub struct TraitImplInfo {
    /// Index of the implementing type in the registry.
    pub owner: usize,
    /// Name of the trait being implemented.
    pub trait_name: String,
    /// Index of the block among the file's items.
    pub impl_item: usize,
    /// Whether the block is an `unsafe impl`.
    pub is_unsafe: bool,
}

/// An oversized inherent `impl` block and the groups it is split into.
#[derive(Debug)]
pub struct PendingSplit {
    /// Index of the owning type in the registry.
    pub owner: usize,
    /// Index of the block among the file's items.
    pub impl_item: usize,
    /// The groups, each becoming its own module.
    pub groups: Vec<MethodGroup>,
}

/// Mathematical form of the registry.
pub struct RegistryModel {
    /// Types: name, item index, token lines.
    pub types: Seq<(Seq<char>, nat, nat)>,
    /// Inline `impl` blocks: owner, item index, token lines.
    pub inline: Seq<(nat, nat, nat)>,
    /// Trait implementations: owner, trait name, item index, unsafety.
    pub traits: Seq<(nat, Seq<char>, nat, bool)>,
    /// Pending splits: owner, item index, the groups' records.
    pub pending: Seq<(nat, nat, Seq<Seq<MethodModel>>)>,
    /// Standalone items, by index.
    pub standalone: Seq<nat>,
}

/// The records of an `impl` block's functions.
pub open spec fn block_models(block: ImplDecl) -> Seq<MethodModel> {
    Seq::new(block.fns@.len(), |k: int| method_of(block.fns@[k], k as nat))
}

/// Whether every function estimate of `items` fits in a machine word.
pub open spec fn items_fit(items: Seq<Item>) -> bool {
    forall|k: int|
        0 <= k < items.len() ==> match #[trigger] items[k] {
            Item::Impl(block) => forall|f: int|
                0 <= f < block.fns@.len() ==> fn_fits(#[trigger] block.fns@[f]),
            _ => true,
        }
}

/// Index of the type named `name` in `types`, or `-1`.
pub open spec fn find_type(types: Seq<(Seq<char>, nat, nat)>, name: Seq<char>) -> int
    decreases types.len(),
{
    if types.len() == 0 {
        -1
    } else {
        let prev = find_type(types.drop_last(), name);
        if prev >= 0 {
            prev
        } else if types.last().0 == name {
            types.len() - 1
        } else {
            -1
        }
    }
}

/// Whether the `impl` block `block` is split under the settings.
pub open spec fn is_split(block: ImplDecl, split: bool, max: nat) -> bool {
    split && model_lines(block_models(block)) > max && block.fns@.len() > 1 && grouping(
        block_models(block),
        max,
    ).len() > 0
}

/// The records of each group that `block` splits into.
pub open spec fn split_groups(block: ImplDecl, max: nat) -> Seq<Seq<MethodModel>> {
    grouping(block_models(block), max).map_values(|g: Seq<usize>| index_models(block_models(block), g))
}

/// The registry after the first `k` items, under the splitting settings.
pub open spec fn registry(items: Seq<Item>, split: bool, max: nat, k: int) -> RegistryModel
    decreases k,
{
    if k <= 0 {
        RegistryModel {
            types: seq![],
            inline: seq![],
            traits: seq![],
            pending: seq![],
            standalone: seq![],
        }
    } else {
        let r = registry(items, split, max, k - 1);
        let idx = (k - 1) as nat;
        match items[k - 1] {
            Item::Struct(t) => if find_type(r.types, t.name@) >= 0 {
                r
            } else {
                RegistryModel { types: r.types.push((t.name@, idx, t.token_lines as nat)), ..r }
            },
            Item::Enum(t) => if find_type(r.types, t.name@) >= 0 {
                r
            } else {
                RegistryModel { types: r.types.push((t.name@, idx, t.token_lines as nat)), ..r }
            },
            Item::Impl(block) => match block.self_type {
                Some(tn) => {
                    let o = find_type(r.types, tn@);
                    if o < 0 {
                        RegistryModel { standalone: r.standalone.push(idx), ..r }
                    } else {
                        match block.trait_name {
                            Some(tr) => RegistryModel {
                                traits: r.traits.push((o as nat, tr@, idx, block.is_unsafe)),
                                ..r
                            },
                            None => if is_split(block, split, max) {
                                RegistryModel {
                                    pending: r.pending.push((o as nat, idx, split_groups(block, max))),
                                    ..r
                                }
                            } else {
                                RegistryModel {
                                    inline: r.inline.push((o as nat, idx, block.token_lines as nat)),
                                    ..r
                                }
                            },
                        }
                    }
                },
                None => RegistryModel { standalone: r.standalone.push(idx), ..r },
            },
            _ => RegistryModel { standalone: r.standalone.push(idx), ..r },
        }
    }
}

/// The placement registrations that the first `k` items make: one per
/// group of each split block, named after the type and the group.
pub open spec fn registrations(items: Seq<Item>, split: bool, max: nat, k: int) -> Seq<(Seq<char>, nat, Seq<char>, nat)>
    decreases k,
{
    if k <= 0 {
        seq![]
    } else {
        let prev = registrations(items, split, max, k - 1);
        let r = registry(items, split, max, k - 1);
        match items[k - 1] {
            Item::Impl(block) => match block.self_type {
                Some(tn) => if find_type(r.types, tn@) >= 0 && block.trait_name is None && is_split(
                    block,
                    split,
                    max,
                ) {
                    prev + split_groups(block, max).map_values(
                        |g: Seq<MethodModel>|
                            (
                                tn@,
                                (k - 1) as nat,
                                lower_of(tn@) + "_"@ + suggested_name(g),
                                g.len(),
                            ),
                    )
                } else {
                    prev
                },
                None => prev,
            },
            _ => prev,
        }
    }
}



/// What a module unit holds, with the name it asks for.
pub struct UnitModel {
    /// Requested name.
    pub base: Seq<char>,
    /// Registry indices of the types defined in the unit.
    pub types: Seq<nat>,
    /// Standalone items, by item index.
    pub standalone: Seq<nat>,
    /// For a split group: the type implemented.
    pub impl_type: Option<Seq<char>>,
    /// For a split group: item index of the block it comes from.
    pub impl_item: Option<nat>,
    /// For a split group: its functions.
    pub group: Option<Seq<MethodModel>>,
    /// For a type unit: the field visibility its placement requires.
    pub visibility: Option<FieldVisibility>,
    /// For a trait unit: the implementing type.
    pub trait_type: Option<Seq<char>>,
    /// For a trait unit: registry indices of the trait implementations.
    pub traits: Seq<nat>,
}

/// A unit asking for `base` and holding nothing yet.
pub open spec fn empty_unit(base: Seq<char>) -> UnitModel {
    UnitModel {
        base,
        types: seq![],
        standalone: seq![],
        impl_type: None,
        impl_item: None,
        group: None,
        visibility: None,
        trait_type: None,
        traits: seq![],
    }
}

/// Registry indices, among the first `k` of `traits`, of those owned by
/// type `t`.
pub open spec fn owned_traits(traits: Seq<(nat, Seq<char>, nat, bool)>, t: nat, k: int) -> Seq<nat>
    decreases k,
{
    if k <= 0 {
        seq![]
    } else if traits[k - 1].0 == t {
        owned_traits(traits, t, k - 1).push((k - 1) as nat)
    } else {
        owned_traits(traits, t, k - 1)
    }
}

/// Registry indices, among the first `k` pending splits, of those owned by
/// type `t`.
pub open spec fn owned_pending(pending: Seq<(nat, nat, Seq<Seq<MethodModel>>)>, t: nat, k: int) -> Seq<nat>
    decreases k,
{
    if k <= 0 {
        seq![]
    } else if pending[k - 1].0 == t {
        owned_pending(pending, t, k - 1).push((k - 1) as nat)
    } else {
        owned_pending(pending, t, k - 1)
    }
}

/// Trait units of the first `k` types.
pub open spec fn trait_units(reg: RegistryModel, k: int) -> Seq<UnitModel>
    decreases k,
{
    if k <= 0 {
        seq![]
    } else {
        let prev = trait_units(reg, k - 1);
        let t = (k - 1) as nat;
        let ts = owned_traits(reg.traits, t, reg.traits.len() as int);
        if ts.len() > 0 {
            let name = reg.types[k - 1].0;
            prev.push(UnitModel {
                trait_type: Some(name),
                traits: ts,
                ..empty_unit(lower_of(name) + "_traits"@)
            })
        } else {
            prev
        }
    }
}

/// Units of the first `k` groups `gs` of one split block of type `name`.
pub open spec fn group_units(name: Seq<char>, item: nat, gs: Seq<Seq<MethodModel>>, k: int) -> Seq<UnitModel>
    decreases k,
{
    if k <= 0 {
        seq![]
    } else {
        let g = gs[k - 1];
        let base = if gs.len() == 1 {
            lower_of(name) + "_impl"@
        } else {
            lower_of(name) + "_"@ + suggested_name(g)
        };
        group_units(name, item, gs, k - 1).push(UnitModel {
            impl_type: Some(name),
            impl_item: Some(item),
            group: Some(g),
            ..empty_unit(base)
        })
    }
}

/// Units of the first `k` split blocks `ps` (registry indices) of type `name`.
pub open spec fn splits_units(reg: RegistryModel, name: Seq<char>, ps: Seq<nat>, k: int) -> Seq<UnitModel>
    decreases k,
{
    if k <= 0 {
        seq![]
    } else {
        let p = reg.pending[ps[k - 1] as int];
        splits_units(reg, name, ps, k - 1) + group_units(name, p.1, p.2, p.2.len() as int)
    }
}

/// The field visibility that type `name`'s placement requires, given the
/// placement registrations `blocks`.
pub open spec fn visibility_of(blocks: Seq<ImplBlockInfo>, name: Seq<char>) -> FieldVisibility {
    let es = crate::scope::pending_for(blocks, name);
    if crate::scope::keeps_inline(es) || crate::scope::wraps(es) {
        FieldVisibility::Private
    } else {
        FieldVisibility::PubSuper
    }
}

/// Units of the split types among the first `k`: each group of each split
/// block, then the type's own unit.
pub open spec fn split_units(reg: RegistryModel, blocks: Seq<ImplBlockInfo>, k: int) -> Seq<UnitModel>
    decreases k,
{
    if k <= 0 {
        seq![]
    } else {
        let prev = split_units(reg, blocks, k - 1);
        let t = (k - 1) as nat;
        let ps = owned_pending(reg.pending, t, reg.pending.len() as int);
        if ps.len() > 0 {
            let name = reg.types[k - 1].0;
            prev + splits_units(reg, name, ps, ps.len() as int) + seq![
                UnitModel {
                    types: seq![t],
                    visibility: Some(visibility_of(blocks, name)),
                    ..empty_unit(lower_of(name) + "_type"@)
                },
            ]
        } else {
            prev
        }
    }
}

/// Sum of the token lines of the first `k` inline blocks owned by `t`.
pub open spec fn inline_lines(inline: Seq<(nat, nat, nat)>, t: nat, k: int) -> nat
    decreases k,
{
    if k <= 0 {
        0
    } else {
        inline_lines(inline, t, k - 1) + if inline[k - 1].0 == t {
            inline[k - 1].2
        } else {
            0
        }
    }
}

/// Estimated size of type `t` with its inline blocks.
pub open spec fn type_lines(reg: RegistryModel, t: int) -> nat {
    reg.types[t].2 + inline_lines(reg.inline, t as nat, reg.inline.len() as int)
}

/// Whether type `t` has a pending split.
pub open spec fn has_pending(reg: RegistryModel, t: int) -> bool {
    owned_pending(reg.pending, t as nat, reg.pending.len() as int).len() > 0
}

/// The packing of the unsplit types among the first `k` into `types`
/// units: closed units, the open unit's name, its types and their size.
/// `offset` counts the units that come before.
pub open spec fn regular_state(reg: RegistryModel, max: nat, offset: nat, k: int) -> (
    Seq<UnitModel>,
    Seq<char>,
    Seq<nat>,
    nat,
)
    decreases k,
{
    if k <= 0 {
        (seq![], "types"@, seq![], 0)
    } else {
        let st = regular_state(reg, max, offset, k - 1);
        let t = k - 1;
        if has_pending(reg, t) {
            st
        } else {
            let l = type_lines(reg, t);
            if st.3 + l > max && st.2.len() > 0 {
                let closed = st.0.push(UnitModel { types: st.2, ..empty_unit(st.1) });
                (closed, "types_"@ + decimal_of(offset + closed.len() + 1), seq![t as nat], l)
            } else {
                (st.0, st.1, st.2.push(t as nat), st.3 + l)
            }
        }
    }
}

/// The `types` units of the unsplit types.
pub open spec fn regular_units(reg: RegistryModel, max: nat, offset: nat) -> Seq<UnitModel> {
    let st = regular_state(reg, max, offset, reg.types.len() as int);
    if st.2.len() > 0 {
        st.0.push(UnitModel { types: st.2, ..empty_unit(st.1) })
    } else {
        st.0
    }
}

/// The module units of a registry, in order, with the names they ask for:
/// one per type with trait implementations; for each split type, one per
/// group and then one for the type; the other types packed into `types`
/// units of at most `max` estimated lines (a type larger than that alone);
/// and the standalone items together.
pub open spec fn plan(reg: RegistryModel, blocks: Seq<ImplBlockInfo>, max: nat) -> Seq<UnitModel> {
    let head = trait_units(reg, reg.types.len() as int) + split_units(
        reg,
        blocks,
        reg.types.len() as int,
    );
    let body = head + regular_units(reg, max, head.len());
    if reg.standalone.len() > 0 {
        body.push(UnitModel { standalone: reg.standalone, ..empty_unit("functions"@) })
    } else {
        body
    }
}

/// The requested names of `units`.
pub open spec fn bases_of(units: Seq<UnitModel>) -> Seq<Seq<char>> {
    units.map_values(|u: UnitModel| u.base)
}

/// The units of a registry with the names they are given.
pub open spec fn named_plan(reg: RegistryModel, blocks: Seq<ImplBlockInfo>, max: nat) -> Seq<UnitModel> {
    let p = plan(reg, blocks, max);
    let names = crate::naming::unit_names(bases_of(p));
    Seq::new(p.len(), |k: int| UnitModel { base: names[k], ..p[k] })
}


/// A module unit to be emitted.
#[derive(Debug)]
pub struct Module {
    /// Its name, unique among the units of a run.
    pub name: String,
    /// Registry indices of the types defined here, with their inline blocks.
    pub types: Vec<usize>,
    /// Standalone items, by item index.
    pub standalone_items: Vec<usize>,
    /// For a split group: the type implemented.
    pub impl_type_name: Option<String>,
    /// For a split group: item index of the block it comes from.
    pub impl_item: Option<usize>,
    /// For a split group: its functions.
    pub method_group: Option<MethodGroup>,
    /// For a type unit: the field visibility its placement requires.
    pub field_visibility: Option<FieldVisibility>,
    /// For a trait unit: the implementing type.
    pub type_name_for_traits: Option<String>,
    /// For a trait unit: registry indices of the trait implementations.
    pub trait_impls: Vec<usize>,
}

/// The indices in `v`, as naturals.
pub open spec fn nats(v: Seq<usize>) -> Seq<nat> {
    v.map_values(|x: usize| x as nat)
}

/// Mathematical form of a unit.
pub open spec fn module_view(m: Module) -> UnitModel {
    UnitModel {
        base: m.name@,
        types: nats(m.types@),
        standalone: nats(m.standalone_items@),
        impl_type: match m.impl_type_name {
            Some(s) => Some(s@),
            None => None,
        },
        impl_item: match m.impl_item {
            Some(i) => Some(i as nat),
            None => None,
        },
        group: match m.method_group {
            Some(g) => Some(g@),
            None => None,
        },
        visibility: m.field_visibility,
        trait_type: match m.type_name_for_traits {
            Some(s) => Some(s@),
            None => None,
        },
        traits: nats(m.trait_impls@),
    }
}

/// The views of a list of units.
pub open spec fn module_views(v: Seq<Module>) -> Seq<UnitModel> {
    v.map_values(|m: Module| module_view(m))
}

impl Module {
    /// An empty unit named `name`.
    pub fn new(name: String) -> (r: Self)
        ensures
            module_view(r) == empty_unit(name@),
    {
        let r = Module {
            name,
            types: Vec::new(),
            standalone_items: Vec::new(),
            impl_type_name: None,
            impl_item: None,
            method_group: None,
            field_visibility: None,
            type_name_for_traits: None,
            trait_impls: Vec::new(),
        };
        assert(nats(r.types@) =~= Seq::<nat>::empty());
        assert(nats(r.standalone_items@) =~= Seq::<nat>::empty());
        assert(nats(r.trait_impls@) =~= Seq::<nat>::empty());
        r
    }
}

/// `a` followed by `b`.
fn joined(a: &str, b: &str) -> (r: String)
    ensures
        r@ == a@ + b@,
{
    let mut r = String::from_str(a);
    r.append(b);
    r
}

/// Copies a list of indices.
fn copy_indices(v: &Vec<usize>) -> (r: Vec<usize>)
    ensures
        r@ == v@,
{
    let mut r: Vec<usize> = Vec::new();
    let mut i: usize = 0;
    while i < v.len()
        invariant
            i <= v@.len(),
            r@ == v@.subrange(0, i as int),
        decreases v@.len() - i,
    {
        r.push(v[i]);
        assert(r@ =~= v@.subrange(0, i as int + 1));
        i = i + 1;
    }
    assert(v@.subrange(0, i as int) =~= v@);
    r
}

/// The names given to `bases`, in order.
pub fn assign_names(bases: &Vec<String>) -> (r: Vec<String>)
    ensures
        r@.map_values(|s: String| s@) == crate::naming::unit_names(bases@.map_values(|s: String| s@)),
{
    let ghost bs = bases@.map_values(|s: String| s@);
    let mut alloc = crate::naming::NameAllocator::new();
    let mut r: Vec<String> = Vec::new();
    let mut i: usize = 0;
    while i < bases.len()
        invariant
            bs == bases@.map_values(|s: String| s@),
            i <= bases@.len(),
            alloc.given() == crate::naming::unit_names(bs.subrange(0, i as int)),
            r@.map_values(|s: String| s@) == alloc.given(),
            r@.len() == i,
        decreases bases@.len() - i,
    {
        proof {
            crate::naming::lemma_unit_names_distinct(bs.subrange(0, i as int));
            assert(bs.subrange(0, i as int + 1).drop_last() =~= bs.subrange(0, i as int));
        }
        let name = alloc.allocate(bases[i].as_str());
        let ghost before = r@;
        r.push(name);
        assert(r@.map_values(|s: String| s@) =~= before.map_values(|s: String| s@).push(r@[i as int]@));
        i = i + 1;
    }
    assert(bs.subrange(0, i as int) =~= bs);
    r
}


proof fn lemma_inline_lines_mono(inline: Seq<(nat, nat, nat)>, t: nat, a: int, b: int)
    requires
        0 <= a <= b,
    ensures
        inline_lines(inline, t, a) <= inline_lines(inline, t, b),
    decreases b - a,
{
    if a < b {
        lemma_inline_lines_mono(inline, t, a, b - 1);
    }
}

impl FileAnalyzer {
    /// The placement registrations, as records.
    pub closed spec fn blocks(&self) -> Seq<ImplBlockInfo> {
        self.scope_analyzer.blocks()
    }

    /// The type records, in order of definition.
    pub fn types(&self) -> (r: &Vec<TypeInfo>)
        ensures
            r@.map_values(|t: TypeInfo| type_view(t)) == self.model().types,
    {
        &self.types
    }

    /// The `impl` blocks kept inline with their types.
    pub fn inline_impls(&self) -> (r: &Vec<ImplRef>)
        ensures
            r@.map_values(|x: ImplRef| (x.owner as nat, x.item as nat, x.token_lines as nat))
                == self.model().inline,
    {
        &self.inline_impls
    }

    /// The trait implementations of known types.
    pub fn trait_impls(&self) -> (r: &Vec<TraitImplInfo>)
        ensures
            r@.map_values(
                |t: TraitImplInfo| (t.owner as nat, t.trait_name@, t.impl_item as nat, t.is_unsafe),
            ) == self.model().traits,
    {
        &self.trait_impls
    }

    /// The split `impl` blocks.
    pub fn large_impls(&self) -> (r: &Vec<PendingSplit>)
        ensures
            r@.map_values(|p: PendingSplit| pending_view(p)) == self.model().pending,
    {
        &self.large_impls
    }

    /// The standalone items, by item index.
    pub fn standalone_items(&self) -> (r: &Vec<usize>)
        ensures
            r@.map_values(|x: usize| x as nat) == self.model().standalone,
    {
        &self.standalone_items
    }

    /// The trait name of the registry's trait implementation `j`.
    pub fn trait_name_at(&self, j: usize) -> (r: Option<String>)
        ensures
            match r {
                Some(n) => j < self.model().traits.len() && n@ == self.model().traits[j as int].1,
                None => j >= self.model().traits.len(),
            },
    {
        if j < self.trait_impls.len() {
            Some(self.trait_impls[j].trait_name.clone())
        } else {
            None
        }
    }

    /// The item index of the registry's type `t`.
    pub fn type_item_at(&self, t: usize) -> (r: Option<usize>)
        ensures
            match r {
                Some(i) => t < self.model().types.len() && i as nat == self.model().types[t as int].1,
                None => t >= self.model().types.len(),
            },
    {
        if t < self.types.len() {
            Some(self.types[t].item)
        } else {
            None
        }
    }

    /// Registry indices of the trait implementations of type `t`.
    fn owned_trait_indices(&self, t: usize) -> (r: Vec<usize>)
        ensures
            nats(r@) == owned_traits(self.model().traits, t as nat, self.model().traits.len() as int),
    {
        let ghost tr = self.model().traits;
        let mut r: Vec<usize> = Vec::new();
        let mut j: usize = 0;
        while j < self.trait_impls.len()
            invariant
                tr == self.model().traits,
                tr.len() == self.trait_impls@.len(),
                j <= tr.len(),
                nats(r@) == owned_traits(tr, t as nat, j as int),
            decreases tr.len() - j,
        {
            assert(tr[j as int].0 == self.trait_impls@[j as int].owner as nat);
            if self.trait_impls[j].owner == t {
                r.push(j);
                assert(nats(r@) =~= owned_traits(tr, t as nat, j as int + 1));
            }
            j = j + 1;
        }
        r
    }

    /// Registry indices of the split blocks of type `t`.
    fn owned_pending_indices(&self, t: usize) -> (r: Vec<usize>)
        ensures
            nats(r@) == owned_pending(self.model().pending, t as nat, self.model().pending.len() as int),
            forall|k: int| 0 <= k < r@.len() ==> #[trigger] r@[k] < self.model().pending.len(),
    {
        let ghost pe = self.model().pending;
        let mut r: Vec<usize> = Vec::new();
        let mut j: usize = 0;
        while j < self.large_impls.len()
            invariant
                pe == self.model().pending,
                pe.len() == self.large_impls@.len(),
                j <= pe.len(),
                nats(r@) == owned_pending(pe, t as nat, j as int),
                forall|k: int| 0 <= k < r@.len() ==> #[trigger] r@[k] < j,
            decreases pe.len() - j,
        {
            assert(pe[j as int].0 == self.large_impls@[j as int].owner as nat);
            if self.large_impls[j].owner == t {
                r.push(j);
                assert(nats(r@) =~= owned_pending(pe, t as nat, j as int + 1));
            }
            j = j + 1;
        }
        r
    }

    /// Estimated size of type `t` with its inline blocks.
    fn estimate_lines(&self, t: usize) -> (r: usize)
        requires
            t < self.model().types.len(),
            type_lines(self.model(), t as int) <= usize::MAX,
        ensures
            r == type_lines(self.model(), t as int),
    {
        let ghost reg = self.model();
        assert(reg.types[t as int] == type_view(self.types@[t as int]));
        let mut total: usize = self.types[t].token_lines;
        let mut j: usize = 0;
        while j < self.inline_impls.len()
            invariant
                reg == self.model(),
                t < reg.types.len(),
                type_lines(reg, t as int) <= usize::MAX,
                reg.inline.len() == self.inline_impls@.len(),
                j <= reg.inline.len(),
                total == reg.types[t as int].2 + inline_lines(reg.inline, t as nat, j as int),
            decreases reg.inline.len() - j,
        {
            proof {
                lemma_inline_lines_mono(reg.inline, t as nat, j as int + 1, reg.inline.len() as int);
            }
            assert(reg.inline[j as int].0 == self.inline_impls@[j as int].owner as nat);
            assert(reg.inline[j as int].2 == self.inline_impls@[j as int].token_lines as nat);
            if self.inline_impls[j].owner == t {
                total = total + self.inline_impls[j].token_lines;
            }
            j = j + 1;
        }
        total
    }

    /// The module units of the file, in a fixed order: one per type with
    /// trait implementations; for each split type, one per group (named
    /// `<type>_impl` when its block has a single group, else after the type
    /// and the group) and then `<type>_type`, which holds the definition
    /// with the field visibility that the placement needs; the other types
    /// packed into `types` units of at most `max_lines` estimated lines;
    /// and a `functions` unit for the standalone items. A requested name
    /// already given gets the first free numeric suffix.
    pub fn group_by_module(&self, max_lines: usize) -> (r: Vec<Module>)
        requires
            forall|t: int| 0 <= t < self.model().types.len() ==> type_lines(self.model(), t) <= usize::MAX,
        ensures
            module_views(r@) == named_plan(self.model(), self.blocks(), max_lines as nat),
    {
        let ghost reg = self.model();
        let ghost blocks = self.blocks();
        let n = self.types.len();
        let mut units: Vec<Module> = Vec::new();
        let mut t: usize = 0;
        assert(module_views(units@) =~= trait_units(reg, 0));
        while t < n
            invariant
                reg == self.model(),
                n == reg.types.len(),
                t <= n,
                module_views(units@) == trait_units(reg, t as int),
            decreases n - t,
        {
            let ts = self.owned_trait_indices(t);
            if ts.len() > 0 {
                let name = &self.types[t].name;
                assert(reg.types[t as int].0 == name@);
                let lower = lowercase(name.as_str());
                let mut m = Module::new(joined(lower.as_str(), "_traits"));
                m.type_name_for_traits = Some(name.clone());
                m.trait_impls = ts;
                let ghost before = module_views(units@);
                units.push(m);
                assert(module_views(units@) =~= before.push(module_view(m)));
            }
            t = t + 1;
        }
        let ghost tu = module_views(units@);
        t = 0;
        assert(module_views(units@) =~= tu + split_units(reg, blocks, 0));
        while t < n
            invariant
                reg == self.model(),
                blocks == self.blocks(),
                n == reg.types.len(),
                t <= n,
                module_views(units@) == tu + split_units(reg, blocks, t as int),
            decreases n - t,
        {
            let ps = self.owned_pending_indices(t);
            if ps.len() > 0 {
                let name = &self.types[t].name;
                assert(reg.types[t as int].0 == name@);
                let lower = lowercase(name.as_str());
                let ghost base_view = module_views(units@);
                let mut q: usize = 0;
                assert(module_views(units@) =~= base_view + splits_units(reg, name@, nats(ps@), 0));
                while q < ps.len()
                    invariant
                        reg == self.model(),
                        lower@ == lower_of(name@),
                        forall|k: int| 0 <= k < ps@.len() ==> #[trigger] ps@[k] < reg.pending.len(),
                        q <= ps@.len(),
                        module_views(units@) == base_view + splits_units(reg, name@, nats(ps@), q as int),
                    decreases ps@.len() - q,
                {
                    let split = &self.large_impls[ps[q]];
                    let ghost pv = reg.pending[ps@[q as int] as int];
                    assert(pv == pending_view(*split));
                    let ng = split.groups.len();
                    let ghost before_q = module_views(units@);
                    let mut g: usize = 0;
                    assert(module_views(units@) =~= before_q + group_units(name@, pv.1, pv.2, 0));
                    while g < ng
                        invariant
                            pv == pending_view(*split),
                            ng == split.groups@.len(),
                            lower@ == lower_of(name@),
                            g <= ng,
                            module_views(units@) == before_q + group_units(name@, pv.1, pv.2, g as int),
                        decreases ng - g,
                    {
                        assert(pv.2[g as int] == split.groups@[g as int]@);
                        let base = if ng == 1 {
                            joined(lower.as_str(), "_impl")
                        } else {
                            let sug = split.groups[g].suggest_name();
                            let mut b = joined(lower.as_str(), "_");
                            b.append(sug.as_str());
                            b
                        };
                        let mut m = Module::new(base);
                        m.impl_type_name = Some(name.clone());
                        m.impl_item = Some(split.impl_item);
                        m.method_group = Some(split.groups[g].duplicate());
                        let ghost before = module_views(units@);
                        units.push(m);
                        assert(module_views(units@) =~= before.push(module_view(m)));
                        g = g + 1;
                    }
                    assert(nats(ps@)[q as int] == ps@[q as int] as nat);
                    assert(module_views(units@) =~= base_view + splits_units(reg, name@, nats(ps@), q as int + 1));
                    q = q + 1;
                }
                let vis = self.scope_analyzer.infer_field_visibility(name.as_str());
                let mut m = Module::new(joined(lower.as_str(), "_type"));
                m.field_visibility = Some(vis);
                m.types.push(t);
                assert(nats(m.types@) =~= seq![t as nat]);
                let ghost before = module_views(units@);
                units.push(m);
                assert(module_views(units@) =~= before.push(module_view(m)));
                assert(module_views(units@) =~= tu + split_units(reg, blocks, t as int + 1));
            }
            t = t + 1;
        }
        let ghost head = module_views(units@);
        let offset = units.len();
        let ghost max = max_lines as nat;
        let mut cur = Module::new(String::from_str("types"));
        let mut cur_lines: usize = 0;
        t = 0;
        assert(module_views(units@) =~= head + regular_state(reg, max, offset as nat, 0).0);
        while t < n
            invariant
                reg == self.model(),
                n == reg.types.len(),
                max == max_lines as nat,
                forall|x: int| 0 <= x < reg.types.len() ==> type_lines(reg, x) <= usize::MAX,
                t <= n,
                head.len() == offset,
                module_views(units@) == head + regular_state(reg, max, offset as nat, t as int).0,
                module_view(cur) == (UnitModel {
                    types: regular_state(reg, max, offset as nat, t as int).2,
                    ..empty_unit(regular_state(reg, max, offset as nat, t as int).1)
                }),
                cur_lines == regular_state(reg, max, offset as nat, t as int).3,
                cur.types@.len() == 0 ==> cur_lines == 0,
            decreases n - t,
        {
            let ps = self.owned_pending_indices(t);
            if ps.len() == 0 {
                let l = self.estimate_lines(t);
                let over = match cur_lines.checked_add(l) {
                    Some(sum) => sum > max_lines,
                    None => true,
                };
                if over && cur.types.len() > 0 {
                    let ghost before = module_views(units@);
                    units.push(cur);
                    assert(module_views(units@) =~= before.push(module_view(cur)));
                    let count = (units.len() as u128) + 1;
                    let digits = decimal(count);
                    let name = joined("types_", digits.as_str());
                    cur = Module::new(name);
                    cur.types.push(t);
                    assert(nats(cur.types@) =~= seq![t as nat]);
                    cur_lines = l;
                } else {
                    let ghost before = cur.types@;
                    cur.types.push(t);
                    assert(nats(cur.types@) =~= nats(before).push(t as nat));
                    cur_lines = cur_lines + l;
                }
            }
            t = t + 1;
        }
        if cur.types.len() > 0 {
            let ghost before = module_views(units@);
            units.push(cur);
            assert(module_views(units@) =~= before.push(module_view(cur)));
        }
        assert(module_views(units@) =~= head + regular_units(reg, max, offset as nat));
        if self.standalone_items.len() > 0 {
            let mut m = Module::new(String::from_str("functions"));
            m.standalone_items = copy_indices(&self.standalone_items);
            assert(nats(m.standalone_items@) == reg.standalone);
            let ghost before = module_views(units@);
            units.push(m);
            assert(module_views(units@) =~= before.push(module_view(m)));
        }
        let ghost p = plan(reg, blocks, max);
        assert(module_views(units@) =~= p);
        let mut bases: Vec<String> = Vec::new();
        let mut k: usize = 0;
        while k < units.len()
            invariant
                k <= units@.len(),
                bases@.map_values(|s: String| s@) == bases_of(module_views(units@)).subrange(0, k as int),
            decreases units@.len() - k,
        {
            let ghost before = bases@;
            bases.push(units[k].name.clone());
            assert(bases@.map_values(|s: String| s@) =~= before.map_values(|s: String| s@).push(
                units@[k as int].name@,
            ));
            assert(bases_of(module_views(units@)).subrange(0, k as int + 1) =~= bases_of(
                module_views(units@),
            ).subrange(0, k as int).push(units@[k as int].name@));
            k = k + 1;
        }
        assert(bases_of(module_views(units@)).subrange(0, k as int) =~= bases_of(p));
        let names = assign_names(&bases);
        proof {
            crate::naming::lemma_unit_names_distinct(bases_of(p));
            assert(names@.len() == names@.map_values(|s: String| s@).len());
        }
        let ghost named = named_plan(reg, blocks, max);
        let ghost total = units@.len();
        let mut out: Vec<Module> = Vec::new();
        let mut rest = units;
        let mut k: usize = 0;
        while k < names.len()
            invariant
                p.len() == total,
                names@.len() == total,
                names@.map_values(|s: String| s@) == crate::naming::unit_names(bases_of(p)),
                named == named_plan(reg, blocks, max),
                named == Seq::new(p.len(), |i: int| UnitModel { base: crate::naming::unit_names(bases_of(p))[i], ..p[i] }),
                k <= total,
                module_views(rest@) == p.subrange(k as int, total as int),
                module_views(out@) == named.subrange(0, k as int),
            decreases total - k,
        {
            assert(rest@.len() > 0) by {
                assert(module_views(rest@).len() == total - k);
            }
            let ghost old_rest = rest@;
            assert(old_rest.len() == total - k) by {
                assert(module_views(old_rest).len() == old_rest.len());
            }
            let mut m = rest.remove(0);
            assert(rest@ =~= old_rest.subrange(1, old_rest.len() as int));
            assert(module_views(old_rest)[0] == p[k as int]);
            assert(module_view(m) == p[k as int]);
            assert(module_views(rest@) =~= p.subrange(k as int + 1, total as int)) by {
                assert forall|i: int| 0 <= i < rest@.len() implies module_views(rest@)[i] == p[k + 1 + i] by {
                    assert(rest@[i] == old_rest[i + 1]);
                    assert(p.subrange(k as int, total as int)[i + 1] == p[k + 1 + i]);
                    assert(module_views(old_rest)[i + 1] == module_view(old_rest[i + 1]));
                }
            }
            m.name = names[k].clone();
            assert(names@.map_values(|s: String| s@)[k as int] == names@[k as int]@);
            let ghost before = module_views(out@);
            out.push(m);
            assert(module_views(out@) =~= before.push(module_view(m)));
            assert(named.subrange(0, k as int + 1) =~= named.subrange(0, k as int).push(named[k as int]));
            k = k + 1;
        }
        assert(named.subrange(0, total as int) =~= named);
        out
    }
}


/// The decomposition depends on its input alone: equal registries,
/// placement registrations and budgets give equal units (names, group
/// contents, visibilities), and equal symbol maps and references give
/// equal import lines.
pub proof fn lemma_decomposition_deterministic(
    reg1: RegistryModel,
    reg2: RegistryModel,
    blocks1: Seq<ImplBlockInfo>,
    blocks2: Seq<ImplBlockInfo>,
    max1: nat,
    max2: nat,
    m1: Map<Seq<char>, Seq<char>>,
    m2: Map<Seq<char>, Seq<char>>,
    types1: Seq<Seq<char>>,
    types2: Seq<Seq<char>>,
)
    requires
        reg1 == reg2,
        blocks1 == blocks2,
        max1 == max2,
        m1 == m2,
        types1 == types2,
    ensures
        named_plan(reg1, blocks1, max1) == named_plan(reg2, blocks2, max2),
        crate::imports::use_statements(m1, types1) == crate::imports::use_statements(m2, types2),
{
}

proof fn lemma_find_type(types: Seq<(Seq<char>, nat, nat)>, name: Seq<char>, i: int)
    requires
        -1 <= i < types.len(),
        i >= 0 ==> types[i].0 == name,
        forall|j: int| 0 <= j < types.len() && (i < 0 || j < i) ==> (#[trigger] types[j]).0 != name,
    ensures
        find_type(types, name) == i,
    decreases types.len(),
{
    if types.len() > 0 {
        let t = types.drop_last();
        if i == types.len() - 1 {
            assert forall|j: int| 0 <= j < t.len() implies (#[trigger] t[j]).0 != name by {
                assert(t[j] == types[j]);
            }
            lemma_find_type(t, name, -1);
        } else {
            assert forall|j: int| 0 <= j < t.len() && (i < 0 || j < i) implies (#[trigger] t[j]).0 != name by {
                assert(t[j] == types[j]);
            }
            if i >= 0 {
                assert(t[i] == types[i]);
            }
            lemma_find_type(t, name, i);
            if i < 0 {
                assert(types.last() == types[types.len() - 1]);
            }
        }
    }
}

/// Registry of the file's items: types, `impl` blocks kept inline, trait
/// implementations, split blocks, and everything else.
pub struct FileAnalyzer {
    types: Vec<TypeInfo>,
    inline_impls: Vec<ImplRef>,
    trait_impls: Vec<TraitImplInfo>,
    large_impls: Vec<PendingSplit>,
    standalone_items: Vec<usize>,
    split_impl_blocks: bool,
    max_impl_lines: usize,
    scope_analyzer: ScopeAnalyzer,
}

/// View of a type record.
pub open spec fn type_view(t: TypeInfo) -> (Seq<char>, nat, nat) {
    (t.name@, t.item as nat, t.token_lines as nat)
}

/// View of a split block.
pub open spec fn pending_view(p: PendingSplit) -> (nat, nat, Seq<Seq<MethodModel>>) {
    (p.owner as nat, p.impl_item as nat, p.groups@.map_values(|g: MethodGroup| g@))
}

/// View of a placement registration.
pub open spec fn registration_view(b: ImplBlockInfo) -> (Seq<char>, nat, Seq<char>, nat) {
    (b.ty_name@, b.impl_item as nat, b.suggested_module@, b.method_count as nat)
}

impl FileAnalyzer {
    /// The registry built so far.
    pub closed spec fn model(&self) -> RegistryModel {
        RegistryModel {
            types: self.types@.map_values(|t: TypeInfo| type_view(t)),
            inline: self.inline_impls@.map_values(
                |r: ImplRef| (r.owner as nat, r.item as nat, r.token_lines as nat),
            ),
            traits: self.trait_impls@.map_values(
                |t: TraitImplInfo| (t.owner as nat, t.trait_name@, t.impl_item as nat, t.is_unsafe),
            ),
            pending: self.large_impls@.map_values(|p: PendingSplit| pending_view(p)),
            standalone: self.standalone_items@.map_values(|x: usize| x as nat),
        }
    }

    /// The placement registrations made so far.
    pub closed spec fn registered(&self) -> Seq<(Seq<char>, nat, Seq<char>, nat)> {
        self.scope_analyzer.blocks().map_values(|b: ImplBlockInfo| registration_view(b))
    }

    /// The groups pending for the type named `name`.
    pub closed spec fn pending_groups(&self, name: Seq<char>) -> Seq<ImplBlockInfo> {
        crate::scope::pending_for(self.scope_analyzer.blocks(), name)
    }

    /// Whether `impl` blocks are split.
    pub closed spec fn splits(&self) -> bool {
        self.split_impl_blocks
    }

    /// The line budget of an `impl` block.
    pub closed spec fn max_lines(&self) -> nat {
        self.max_impl_lines as nat
    }

    /// Internal consistency.
    pub closed spec fn wf(&self) -> bool {
        self.scope_analyzer.wf()
    }

    /// An empty registry with the given splitting settings.
    pub fn new(split_impl_blocks: bool, max_impl_lines: usize) -> (r: Self)
        ensures
            r.wf(),
            r.model() == registry(Seq::<Item>::empty(), split_impl_blocks, max_impl_lines as nat, 0),
            r.registered() == Seq::<(Seq<char>, nat, Seq<char>, nat)>::empty(),
            r.splits() == split_impl_blocks,
            r.max_lines() == max_impl_lines as nat,
    {
        let r = FileAnalyzer {
            types: Vec::new(),
            inline_impls: Vec::new(),
            trait_impls: Vec::new(),
            large_impls: Vec::new(),
            standalone_items: Vec::new(),
            split_impl_blocks,
            max_impl_lines,
            scope_analyzer: ScopeAnalyzer::new(),
        };
        assert(r.model().types =~= Seq::<(Seq<char>, nat, nat)>::empty());
        assert(r.model().inline =~= Seq::<(nat, nat, nat)>::empty());
        assert(r.model().traits =~= Seq::<(nat, Seq<char>, nat, bool)>::empty());
        assert(r.model().pending =~= Seq::<(nat, nat, Seq<Seq<MethodModel>>)>::empty());
        assert(r.model().standalone =~= Seq::<nat>::empty());
        assert(r.registered() =~= Seq::<(Seq<char>, nat, Seq<char>, nat)>::empty());
        r
    }

    /// Where the type named `name` stands in the registry.
    fn find_type_index(&self, name: &str) -> (r: Option<usize>)
        ensures
            match r {
                Some(o) => o as int == find_type(self.model().types, name@) && o < self.types@.len(),
                None => find_type(self.model().types, name@) == -1,
            },
    {
        let ghost ts = self.model().types;
        let mut i: usize = 0;
        while i < self.types.len()
            invariant
                ts == self.model().types,
                ts.len() == self.types@.len(),
                i <= ts.len(),
                forall|j: int| 0 <= j < i ==> (#[trigger] ts[j]).0 != name@,
            decreases ts.len() - i,
        {
            assert(ts[i as int] == type_view(self.types@[i as int]));
            if same_text(self.types[i].name.as_str(), name) {
                proof {
                    lemma_find_type(ts, name@, i as int);
                }
                return Some(i);
            }
            i = i + 1;
        }
        proof {
            lemma_find_type(ts, name@, -1);
        }
        None
    }

    /// Registers every item of the file, in order: structs and enums create
    /// type records (the first definition of a name wins); an `impl` block
    /// of a known type is a trait implementation, an oversized block split
    /// into groups (when splitting is on, its estimated size exceeds the
    /// budget and it has more than one function), or a block kept inline;
    /// anything else, and any block of an unknown type, stands alone.
    pub fn analyze(&mut self, items: &Vec<Item>)
        requires
            old(self).wf(),
            old(self).model() == registry(items@, old(self).splits(), old(self).max_lines(), 0),
            old(self).registered() == Seq::<(Seq<char>, nat, Seq<char>, nat)>::empty(),
            items_fit(items@),
        ensures
            final(self).wf(),
            final(self).splits() == old(self).splits(),
            final(self).max_lines() == old(self).max_lines(),
            final(self).model() == registry(
                items@,
                old(self).splits(),
                old(self).max_lines(),
                items@.len() as int,
            ),
            final(self).registered() == registrations(
                items@,
                old(self).splits(),
                old(self).max_lines(),
                items@.len() as int,
            ),
    {
        self.scope_analyzer.analyze_types(items);
        assert(self.registered() == registrations(items@, self.splits(), self.max_lines(), 0));
        let mut i: usize = 0;
        while i < items.len()
            invariant
                self.wf(),
                self.splits() == old(self).splits(),
                self.max_lines() == old(self).max_lines(),
                items_fit(items@),
                i <= items@.len(),
                self.model() == registry(items@, self.splits(), self.max_lines(), i as int),
                self.registered() == registrations(items@, self.splits(), self.max_lines(), i as int),
            decreases items@.len() - i,
        {
            match &items[i] {
                Item::Struct(t) => {
                    self.add_type(t.name.as_str(), i, t.token_lines);
                },
                Item::Enum(t) => {
                    self.add_type(t.name.as_str(), i, t.token_lines);
                },
                Item::Impl(block) => {
                    assert(forall|f: int| 0 <= f < block.fns@.len() ==> fn_fits(#[trigger] block.fns@[f])) by {
                        assert(items@[i as int] == Item::Impl(*block));
                    }
                    self.analyze_impl(block, i);
                },
                _ => {
                    self.add_standalone(i);
                },
            }
            i = i + 1;
        }
    }

    fn add_standalone(&mut self, idx: usize)
        ensures
            final(self).wf() == old(self).wf(),
            final(self).splits() == old(self).splits(),
            final(self).max_lines() == old(self).max_lines(),
            final(self).registered() == old(self).registered(),
            final(self).model() == (RegistryModel {
                standalone: old(self).model().standalone.push(idx as nat),
                ..old(self).model()
            }),
    {
        self.standalone_items.push(idx);
        assert(self.model().standalone =~= old(self).model().standalone.push(idx as nat));
    }

    fn add_type(&mut self, name: &str, idx: usize, token_lines: usize)
        ensures
            final(self).wf() == old(self).wf(),
            final(self).splits() == old(self).splits(),
            final(self).max_lines() == old(self).max_lines(),
            final(self).registered() == old(self).registered(),
            final(self).model() == if find_type(old(self).model().types, name@) >= 0 {
                old(self).model()
            } else {
                RegistryModel {
                    types: old(self).model().types.push((name@, idx as nat, token_lines as nat)),
                    ..old(self).model()
                }
            },
    {
        match self.find_type_index(name) {
            Some(_) => {},
            None => {
                self.types.push(TypeInfo { name: String::from_str(name), item: idx, token_lines });
                assert(self.model().types =~= old(self).model().types.push(
                    (name@, idx as nat, token_lines as nat),
                ));
            },
        }
    }

    fn analyze_impl(&mut self, block: &ImplDecl, idx: usize)
        requires
            old(self).wf(),
            forall|f: int| 0 <= f < block.fns@.len() ==> fn_fits(#[trigger] block.fns@[f]),
        ensures
            final(self).wf(),
            final(self).splits() == old(self).splits(),
            final(self).max_lines() == old(self).max_lines(),
            ({
                let r = old(self).model();
                let split = old(self).splits();
                let max = old(self).max_lines();
                match block.self_type {
                    Some(tn) => {
                        let o = find_type(r.types, tn@);
                        if o < 0 {
                            final(self).model() == (RegistryModel { standalone: r.standalone.push(idx as nat), ..r })
                                && final(self).registered() == old(self).registered()
                        } else {
                            match block.trait_name {
                                Some(tr) => final(self).model() == (RegistryModel {
                                    traits: r.traits.push((o as nat, tr@, idx as nat, block.is_unsafe)),
                                    ..r
                                }) && final(self).registered() == old(self).registered(),
                                None => if is_split(*block, split, max) {
                                    final(self).model() == (RegistryModel {
                                        pending: r.pending.push((o as nat, idx as nat, split_groups(*block, max))),
                                        ..r
                                    }) && final(self).registered() == old(self).registered() + split_groups(
                                        *block,
                                        max,
                                    ).map_values(
                                        |g: Seq<MethodModel>|
                                            (tn@, idx as nat, lower_of(tn@) + "_"@ + suggested_name(g), g.len()),
                                    )
                                } else {
                                    final(self).model() == (RegistryModel {
                                        inline: r.inline.push((o as nat, idx as nat, block.token_lines as nat)),
                                        ..r
                                    }) && final(self).registered() == old(self).registered()
                                },
                            }
                        }
                    },
                    None => final(self).model() == (RegistryModel { standalone: r.standalone.push(idx as nat), ..r })
                        && final(self).registered() == old(self).registered(),
                }
            }),
    {
        let tn = match &block.self_type {
            Some(tn) => tn,
            None => {
                self.add_standalone(idx);
                return;
            },
        };
        let o = match self.find_type_index(tn.as_str()) {
            Some(o) => o,
            None => {
                self.add_standalone(idx);
                return;
            },
        };
        match &block.trait_name {
            Some(tr) => {
                self.trait_impls.push(
                    TraitImplInfo { owner: o, trait_name: tr.clone(), impl_item: idx, is_unsafe: block.is_unsafe },
                );
                assert(self.model().traits =~= old(self).model().traits.push(
                    (o as nat, tr@, idx as nat, block.is_unsafe),
                ));
                return;
            },
            None => {},
        }
        if self.split_impl_blocks {
            let mut analyzer = ImplBlockAnalyzer::new();
            analyzer.analyze(block);
            assert(analyzer@ =~= block_models(*block));
            if analyzer.total_lines_exceed(self.max_impl_lines) && analyzer.get_total_methods() > 1 {
                let groups = analyzer.group_methods(self.max_impl_lines);
                if groups.len() > 0 {
                    let ghost gm = split_groups(*block, self.max_impl_lines as nat);
                    assert(groups@.map_values(|g: MethodGroup| g@) =~= gm);
                    let lower = lowercase(tn.as_str());
                    let ghost start = self.registered();
                    let mut g: usize = 0;
                    while g < groups.len()
                        invariant
                            self.wf(),
                            self.model() == old(self).model(),
                            self.splits() == old(self).splits(),
                            self.max_lines() == old(self).max_lines(),
                            start == old(self).registered(),
                            gm == groups@.map_values(|g: MethodGroup| g@),
                            lower@ == lower_of(tn@),
                            g <= groups@.len(),
                            self.registered() == start + gm.subrange(0, g as int).map_values(
                                |m: Seq<MethodModel>|
                                    (tn@, idx as nat, lower_of(tn@) + "_"@ + suggested_name(m), m.len()),
                            ),
                        decreases groups@.len() - g,
                    {
                        let mut name = lower.clone();
                        name.append("_");
                        let suggestion = groups[g].suggest_name();
                        name.append(suggestion.as_str());
                        let ghost before = self.scope_analyzer.blocks();
                        let ghost before_reg = self.registered();
                        let count = groups[g].methods.len();
                        assert(gm[g as int] == groups@[g as int]@);
                        assert(count == gm[g as int].len());
                        let ghost nv = name@;
                        assert(nv == lower_of(tn@) + "_"@ + suggested_name(gm[g as int]));
                        let owner_name = tn.clone();
                        self.scope_analyzer.register_impl_block(owner_name, idx, name, count);
                        assert(self.scope_analyzer.blocks().len() == before.len() + 1);
                        assert(registration_view(self.scope_analyzer.blocks().last()) == (
                            tn@,
                            idx as nat,
                            nv,
                            count as nat,
                        ));
                        assert(self.registered() =~= before_reg.push(
                            (tn@, idx as nat, nv, count as nat),
                        )) by {
                            assert forall|j: int| 0 <= j < before.len() implies self.scope_analyzer.blocks()[j] == before[j] by {}
                        }
                        assert(gm.subrange(0, g as int + 1) =~= gm.subrange(0, g as int).push(gm[g as int]));
                        assert(self.registered() =~= start + gm.subrange(0, g as int + 1).map_values(
                            |m: Seq<MethodModel>|
                                (tn@, idx as nat, lower_of(tn@) + "_"@ + suggested_name(m), m.len()),
                        ));
                        g = g + 1;
                    }
                    assert(gm.subrange(0, g as int) =~= gm);
                    let ghost reg = self.registered();
                    self.scope_analyzer.mark_needs_impl_module(tn.as_str());
                    assert(self.registered() == reg);
                    self.large_impls.push(PendingSplit { owner: o, impl_item: idx, groups });
                    assert(self.model().pending =~= old(self).model().pending.push(
                        (o as nat, idx as nat, gm),
                    ));
                    return;
                }
            }
        }
        self.inline_impls.push(ImplRef { owner: o, item: idx, token_lines: block.token_lines });
        assert(self.model().inline =~= old(self).model().inline.push(
            (o as nat, idx as nat, block.token_lines as nat),
        ));
    }
}

} // verus!
