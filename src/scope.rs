//! Where the `impl` blocks of a split type may live: a per-type choice
//! between keeping them inline, one wrapper module, or a parent module with
//! one child module per group, and the field visibility that choice needs.

use vstd::prelude::*;
use vstd::string::*;
use crate::decl::Item;
use crate::text::{lowercase, lower_of, same_text, dashes_to_underscores, dashes_to_underscores_of};

verus! {

/// Number of pending functions from which a type's groups leave its module.
pub const INLINE_LIMIT: usize = 10;

/// Location of a type definition in the module hierarchy.
#[derive(Debug, Clone)]
pub struct TypeLocation {
    /// Name of the type.
    pub ty_name: String,
    /// Module where the type is defined.
    pub module: String,
    /// Whether the type needs a dedicated module for its `impl` blocks.
    pub needs_impl_module: bool,
}

/// A group of functions split from an `impl` block, waiting for placement.
#[derive(Debug, Clone)]
pub struct ImplBlockInfo {
    /// Name of the type the block implements.
    pub ty_name: String,
    /// Index, among the file's items, of the block the group comes from.
    pub impl_item: usize,
    /// Module name suggested for the group.
    pub suggested_module: String,
    /// Number of functions in the group.
    pub method_count: usize,
}

/// How a type's `impl` blocks are organised.
#[derive(Debug, Clone, PartialEq)]
pub enum ImplOrganizationStrategy {
    /// All `impl` blocks stay in the type's module.
    Inline,
    /// A parent module holds the type; each group is a child module
    /// bound in by a path directive.
    Submodule {
        /// Name of the parent module containing the type.
        parent_module: String,
        /// Names of the child modules, one per group.
        impl_modules: Vec<String>,
    },
    /// One module holds the type and all its functions.
    Wrapper {
        /// Name of the wrapper module.
        module_name: String,
    },
}

/// Field visibility that a placement requires.
#[derive(Debug, Clone, Copy, PartialEq, Eq, Structural)]
pub enum FieldVisibility {
    Private,
    PubSuper,
    PubCrate,
    Pub,
}

/// The module layout of one type.
#[derive(Debug, Clone)]
pub struct ModuleStructure {
    /// Name of the module containing the type.
    pub type_module: String,
    /// Whether path directives are needed.
    pub needs_path_attributes: bool,
    /// The path directives that bind child modules into the parent.
    pub path_includes: Vec<String>,
    /// Re-export lines for the index module.
    pub re_exports: Vec<String>,
}

/// The groups pending for type `name`, in registration order.
pub open spec fn pending_for(bs: Seq<ImplBlockInfo>, name: Seq<char>) -> Seq<ImplBlockInfo>
    decreases bs.len(),
{
    if bs.len() == 0 {
        seq![]
    } else {
        let prev = pending_for(bs.drop_last(), name);
        if bs.last().ty_name@ == name {
            prev.push(bs.last())
        } else {
            prev
        }
    }
}

/// Total number of functions in the groups `es`.
pub open spec fn pending_total(es: Seq<ImplBlockInfo>) -> nat
    decreases es.len(),
{
    if es.len() == 0 {
        0
    } else {
        pending_total(es.drop_last()) + es.last().method_count as nat
    }
}

/// Whether all the groups `es` come from one block.
pub open spec fn single_block(es: Seq<ImplBlockInfo>) -> bool {
    forall|k: int| 0 <= k < es.len() ==> (#[trigger] es[k]).impl_item == es[0].impl_item
}

/// The module names suggested for the groups `es`.
pub open spec fn suggested_modules(es: Seq<ImplBlockInfo>) -> Seq<Seq<char>> {
    es.map_values(|b: ImplBlockInfo| b.suggested_module@)
}

/// Whether the groups `es` keep their type's functions inline: there are
/// fewer than ten functions in all.
pub open spec fn keeps_inline(es: Seq<ImplBlockInfo>) -> bool {
    pending_total(es) < INLINE_LIMIT
}

/// Whether the groups `es` call for one wrapper module: ten functions or
/// more, all from a single oversized block.
pub open spec fn wraps(es: Seq<ImplBlockInfo>) -> bool {
    !keeps_inline(es) && single_block(es)
}

/// The views of a list of strings.
pub open spec fn string_views(v: Seq<String>) -> Seq<Seq<char>> {
    v.map_values(|s: String| s@)
}

/// Whether `r` is the strategy for a type named `name` with pending groups `es`.
pub open spec fn is_strategy_for(
    r: ImplOrganizationStrategy,
    name: Seq<char>,
    es: Seq<ImplBlockInfo>,
) -> bool {
    if keeps_inline(es) {
        r is Inline
    } else if wraps(es) {
        r matches ImplOrganizationStrategy::Wrapper { module_name } && module_name@ == lower_of(name)
            + "_module"@
    } else {
        r matches ImplOrganizationStrategy::Submodule { parent_module, impl_modules }
            && parent_module@ == lower_of(name) + "_type"@ && string_views(impl_modules@)
            == suggested_modules(es)
    }
}

/// The visibility that fields of a type need under a strategy.
pub open spec fn visibility_for(r: ImplOrganizationStrategy) -> FieldVisibility {
    match r {
        ImplOrganizationStrategy::Submodule { .. } => FieldVisibility::PubSuper,
        _ => FieldVisibility::Private,
    }
}

/// The locations of `t` by type name; a later entry for a name replaces an
/// earlier one.
pub open spec fn location_map(t: Seq<TypeLocation>) -> Map<Seq<char>, (Seq<char>, bool)>
    decreases t.len(),
{
    if t.len() == 0 {
        Map::empty()
    } else {
        location_map(t.drop_last()).insert(
            t.last().ty_name@,
            (t.last().module@, t.last().needs_impl_module),
        )
    }
}

/// No two locations share a type name.
pub open spec fn names_unique(t: Seq<TypeLocation>) -> bool {
    forall|a: int, b: int|
        0 <= a < t.len() && 0 <= b < t.len() && a != b ==> (#[trigger] t[a]).ty_name@ != (
        #[trigger] t[b]).ty_name@
}

proof fn lemma_location_map_has(t: Seq<TypeLocation>, k: int)
    requires
        names_unique(t),
        0 <= k < t.len(),
    ensures
        location_map(t).contains_key(t[k].ty_name@),
        location_map(t)[t[k].ty_name@] == (t[k].module@, t[k].needs_impl_module),
    decreases t.len(),
{
    if k < t.len() - 1 {
        assert(t.drop_last()[k] == t[k]);
        assert(names_unique(t.drop_last()));
        lemma_location_map_has(t.drop_last(), k);
        assert(t.last() == t[t.len() - 1]);
    }
}

proof fn lemma_location_map_keys(t: Seq<TypeLocation>, name: Seq<char>)
    requires
        forall|k: int| 0 <= k < t.len() ==> (#[trigger] t[k]).ty_name@ != name,
    ensures
        !location_map(t).contains_key(name),
    decreases t.len(),
{
    if t.len() > 0 {
        assert forall|k: int| 0 <= k < t.drop_last().len() implies (#[trigger] t.drop_last()[k]).ty_name@
            != name by {
            assert(t.drop_last()[k] == t[k]);
        }
        lemma_location_map_keys(t.drop_last(), name);
        assert(t.last() == t[t.len() - 1]);
    }
}

proof fn lemma_location_map_update(t: Seq<TypeLocation>, k: int, v: TypeLocation)
    requires
        names_unique(t),
        0 <= k < t.len(),
        v.ty_name@ == t[k].ty_name@,
    ensures
        location_map(t.update(k, v)) == location_map(t).insert(
            v.ty_name@,
            (v.module@, v.needs_impl_module),
        ),
    decreases t.len(),
{
    let u = t.update(k, v);
    if k == t.len() - 1 {
        assert(u.drop_last() =~= t.drop_last());
        assert(location_map(u) =~= location_map(t).insert(
            v.ty_name@,
            (v.module@, v.needs_impl_module),
        ));
    } else {
        assert(u.drop_last() =~= t.drop_last().update(k, v));
        assert(names_unique(t.drop_last()));
        assert(t.drop_last()[k] == t[k]);
        lemma_location_map_update(t.drop_last(), k, v);
        assert(u.last() == t.last());
        assert(t.last() == t[t.len() - 1]);
        assert(t.last().ty_name@ != v.ty_name@);
        assert(location_map(u) =~= location_map(t).insert(
            v.ty_name@,
            (v.module@, v.needs_impl_module),
        ));
    }
}


/// The directive that binds child module `m`'s file into its parent.
pub open spec fn path_include_of(m: Seq<char>) -> Seq<char> {
    "#[path = \""@ + m + ".rs\"]\nmod "@ + dashes_to_underscores_of(m) + ";"@
}

/// The re-export line of module `m`.
pub open spec fn re_export_of(m: Seq<char>) -> Seq<char> {
    "pub use "@ + m + "::*;"@
}

/// The path directive of child module `m`.
pub fn path_include(m: &str) -> (r: String)
    ensures
        r@ == path_include_of(m@),
{
    let mut r = String::from_str("#[path = \"");
    r.append(m);
    r.append(".rs\"]\nmod ");
    let stem = dashes_to_underscores(m);
    r.append(stem.as_str());
    r.append(";");
    r
}

/// The re-export line of module `m`.
pub fn re_export(m: &str) -> (r: String)
    ensures
        r@ == re_export_of(m@),
{
    let mut r = String::from_str("pub use ");
    r.append(m);
    r.append("::*;");
    r
}


/// Whether `r` is the module layout of a type named `name` whose pending
/// groups are `es`.
pub open spec fn is_structure_for(r: ModuleStructure, name: Seq<char>, es: Seq<ImplBlockInfo>) -> bool {
    let parent = lower_of(name) + "_type"@;
    if keeps_inline(es) {
        &&& r.type_module@ == parent
        &&& !r.needs_path_attributes
        &&& r.path_includes@.len() == 0
        &&& string_views(r.re_exports@) == seq![re_export_of(parent)]
    } else if wraps(es) {
        let wrapper = lower_of(name) + "_module"@;
        &&& r.type_module@ == wrapper
        &&& !r.needs_path_attributes
        &&& r.path_includes@.len() == 0
        &&& string_views(r.re_exports@) == seq![re_export_of(wrapper)]
    } else {
        &&& r.type_module@ == parent
        &&& r.needs_path_attributes
        &&& string_views(r.path_includes@) == suggested_modules(es).map_values(
            |m: Seq<char>| path_include_of(m),
        )
        &&& string_views(r.re_exports@) == seq![re_export_of(parent)]
    }
}

/// The two lines that bind child module `m` into a type module.
pub open spec fn child_lines_of(m: Seq<char>) -> Seq<char> {
    "#[path = \""@ + m + ".rs\"]\n"@ + "mod "@ + dashes_to_underscores_of(m) + ";\n"@
}

/// The binding lines of the child modules `ms`, in order.
pub open spec fn children_text(ms: Seq<Seq<char>>) -> Seq<char>
    decreases ms.len(),
{
    if ms.len() == 0 {
        seq![]
    } else {
        children_text(ms.drop_last()) + child_lines_of(ms.last())
    }
}

/// Opening lines of a type module.
pub open spec fn type_module_header() -> Seq<char> {
    "//! Auto-generated type module\n\n"@ + "use std::collections::{HashMap, HashSet};\n"@
        + "use super::super::types::*;\n\n"@
}

/// The text of a type module for a type named `name` with pending groups
/// `es`, whose definition is rendered as `code` (none for an item that is
/// neither a struct nor an enum).
pub open spec fn type_module_text(code: Option<Seq<char>>, name: Seq<char>, es: Seq<ImplBlockInfo>) -> Seq<char> {
    let def = match code {
        Some(c) => c + "\n\n"@,
        None => seq![],
    };
    let children = if keeps_inline(es) || wraps(es) {
        seq![]
    } else {
        "// Include impl block modules\n"@ + children_text(suggested_modules(es))
    };
    type_module_header() + def + children
}

/// Records where each type is defined and which split groups wait for
/// placement, and decides each type's placement.
pub struct ScopeAnalyzer {
    type_locations: Vec<TypeLocation>,
    impl_blocks: Vec<ImplBlockInfo>,
}

impl ScopeAnalyzer {
    /// The type locations, by type name.
    pub closed spec fn locations(&self) -> Map<Seq<char>, (Seq<char>, bool)> {
        location_map(self.type_locations@)
    }

    /// The registered groups, in order.
    pub closed spec fn blocks(&self) -> Seq<ImplBlockInfo> {
        self.impl_blocks@
    }

    /// Internal consistency: one location per type name.
    pub closed spec fn wf(&self) -> bool {
        names_unique(self.type_locations@)
    }

    /// An analyzer that knows no type and no group.
    pub fn new() -> (r: Self)
        ensures
            r.wf(),
            r.locations() == Map::<Seq<char>, (Seq<char>, bool)>::empty(),
            r.blocks() == Seq::<ImplBlockInfo>::empty(),
    {
        ScopeAnalyzer { type_locations: Vec::new(), impl_blocks: Vec::new() }
    }

    /// Number of types with a known location.
    pub fn type_count(&self) -> (r: usize)
        requires
            self.wf(),
        ensures
            r == self.locations().dom().len(),
    {
        proof {
            self.lemma_count();
        }
        self.type_locations.len()
    }

    proof fn lemma_count(&self)
        requires
            self.wf(),
        ensures
            self.locations().dom().len() == self.type_locations@.len(),
            self.locations().dom().finite(),
        decreases self.type_locations@.len(),
    {
        lemma_location_count(self.type_locations@);
    }

    /// Number of registered groups.
    pub fn block_count(&self) -> (r: usize)
        ensures
            r == self.blocks().len(),
    {
        self.impl_blocks.len()
    }

    /// Whether a location is known for `ty_name`.
    pub fn has_type(&self, ty_name: &str) -> (r: bool)
        requires
            self.wf(),
        ensures
            r == self.locations().contains_key(ty_name@),
    {
        match self.find_type(ty_name) {
            Some(_) => true,
            None => false,
        }
    }

    /// Where `ty_name` stands in the location list.
    fn find_type(&self, ty_name: &str) -> (r: Option<usize>)
        requires
            self.wf(),
        ensures
            match r {
                Some(k) => k < self.type_locations@.len() && self.type_locations@[k as int].ty_name@
                    == ty_name@,
                None => forall|k: int|
                    0 <= k < self.type_locations@.len() ==> (#[trigger] self.type_locations@[k]).ty_name@
                        != ty_name@,
            },
            r is Some <==> self.locations().contains_key(ty_name@),
    {
        let mut i: usize = 0;
        while i < self.type_locations.len()
            invariant
                names_unique(self.type_locations@),
                i <= self.type_locations@.len(),
                forall|k: int|
                    0 <= k < i ==> (#[trigger] self.type_locations@[k]).ty_name@ != ty_name@,
            decreases self.type_locations@.len() - i,
        {
            if same_text(self.type_locations[i].ty_name.as_str(), ty_name) {
                proof {
                    lemma_location_map_has(self.type_locations@, i as int);
                }
                return Some(i);
            }
            i = i + 1;
        }
        proof {
            lemma_location_map_keys(self.type_locations@, ty_name@);
        }
        None
    }

    /// Registers the struct and enum definitions of `items` as living in
    /// the `types` module.
    pub fn analyze_types(&mut self, items: &Vec<Item>)
        requires
            old(self).wf(),
        ensures
            final(self).wf(),
            final(self).blocks() == old(self).blocks(),
            forall|name: Seq<char>| #[trigger]
                final(self).locations().contains_key(name) <==> (old(self).locations().contains_key(
                    name,
                ) || defines_type(items@, name)),
    {
        let mut i: usize = 0;
        while i < items.len()
            invariant
                self.wf(),
                self.blocks() == old(self).blocks(),
                i <= items@.len(),
                forall|name: Seq<char>| #[trigger]
                    self.locations().contains_key(name) <==> (old(self).locations().contains_key(name)
                        || defines_type(items@.subrange(0, i as int), name)),
            decreases items@.len() - i,
        {
            let ghost before = self.locations();
            match &items[i] {
                Item::Struct(t) => {
                    self.register_type(t.name.as_str(), "types");
                },
                Item::Enum(t) => {
                    self.register_type(t.name.as_str(), "types");
                },
                _ => {},
            }
            assert forall|name: Seq<char>| #[trigger]
                self.locations().contains_key(name) <==> (before.contains_key(name) || item_defines(
                    items@[i as int],
                    name,
                )) by {
                match items@[i as int] {
                    Item::Struct(t) => {
                        assert(self.locations() == before.insert(t.name@, ("types"@, false)));
                    },
                    Item::Enum(t) => {
                        assert(self.locations() == before.insert(t.name@, ("types"@, false)));
                    },
                    _ => {},
                }
            }
            assert forall|name: Seq<char>|
                defines_type(items@.subrange(0, i as int + 1), name) <==> (defines_type(
                    items@.subrange(0, i as int),
                    name,
                ) || item_defines(items@[i as int], name)) by {
                lemma_defines_type_push(items@, i as int, name);
            }
            i = i + 1;
        }
        assert(items@.subrange(0, i as int) =~= items@);
    }

    /// Records that `ty_name` is defined in `module`, replacing any
    /// earlier location of that type.
    pub fn register_type(&mut self, ty_name: &str, module: &str)
        requires
            old(self).wf(),
        ensures
            final(self).wf(),
            final(self).blocks() == old(self).blocks(),
            final(self).locations() == old(self).locations().insert(
                ty_name@,
                (module@, false),
            ),
    {
        let loc = TypeLocation {
            ty_name: String::from_str(ty_name),
            module: String::from_str(module),
            needs_impl_module: false,
        };
        match self.find_type(ty_name) {
            Some(k) => {
                proof {
                    lemma_location_map_update(self.type_locations@, k as int, loc);
                }
                let ghost before = self.type_locations@;
                self.type_locations.set(k, loc);
                assert(names_unique(self.type_locations@)) by {
                    assert forall|a: int, b: int|
                        0 <= a < self.type_locations@.len() && 0 <= b < self.type_locations@.len()
                            && a != b implies (#[trigger] self.type_locations@[a]).ty_name@ != (
                    #[trigger] self.type_locations@[b]).ty_name@ by {
                        if a != k && b != k {
                            assert(self.type_locations@[a] == before[a]);
                            assert(self.type_locations@[b] == before[b]);
                        } else if a == k {
                            assert(self.type_locations@[b] == before[b]);
                        } else {
                            assert(self.type_locations@[a] == before[a]);
                        }
                    }
                }
            },
            None => {
                let ghost before = self.type_locations@;
                self.type_locations.push(loc);
                assert(self.type_locations@.drop_last() =~= before);
                assert(names_unique(self.type_locations@)) by {
                    assert forall|a: int, b: int|
                        0 <= a < self.type_locations@.len() && 0 <= b < self.type_locations@.len()
                            && a != b implies (#[trigger] self.type_locations@[a]).ty_name@ != (
                    #[trigger] self.type_locations@[b]).ty_name@ by {
                        if a < before.len() && b < before.len() {
                            assert(self.type_locations@[a] == before[a]);
                            assert(self.type_locations@[b] == before[b]);
                        } else if a < before.len() {
                            assert(self.type_locations@[a] == before[a]);
                        } else {
                            assert(self.type_locations@[b] == before[b]);
                        }
                    }
                }
            },
        }
    }

    /// Flags `ty_name`, when its location is known, as needing a
    /// dedicated module for its `impl` blocks.
    pub fn mark_needs_impl_module(&mut self, ty_name: &str)
        requires
            old(self).wf(),
        ensures
            final(self).wf(),
            final(self).blocks() == old(self).blocks(),
            final(self).locations() == if old(self).locations().contains_key(ty_name@) {
                old(self).locations().insert(
                    ty_name@,
                    (old(self).locations()[ty_name@].0, true),
                )
            } else {
                old(self).locations()
            },
    {
        match self.find_type(ty_name) {
            Some(k) => {
                proof {
                    lemma_location_map_has(self.type_locations@, k as int);
                }
                let loc = TypeLocation {
                    ty_name: self.type_locations[k].ty_name.clone(),
                    module: self.type_locations[k].module.clone(),
                    needs_impl_module: true,
                };
                proof {
                    lemma_location_map_update(self.type_locations@, k as int, loc);
                }
                let ghost before = self.type_locations@;
                self.type_locations.set(k, loc);
                assert(names_unique(self.type_locations@)) by {
                    assert forall|a: int, b: int|
                        0 <= a < self.type_locations@.len() && 0 <= b < self.type_locations@.len()
                            && a != b implies (#[trigger] self.type_locations@[a]).ty_name@ != (
                    #[trigger] self.type_locations@[b]).ty_name@ by {
                        if a != k && b != k {
                            assert(self.type_locations@[a] == before[a]);
                            assert(self.type_locations@[b] == before[b]);
                        } else if a == k {
                            assert(self.type_locations@[b] == before[b]);
                        } else {
                            assert(self.type_locations@[a] == before[a]);
                        }
                    }
                }
            },
            None => {},
        }
    }

    /// Registers a split group of `ty_name`'s functions that needs
    /// placement.
    pub fn register_impl_block(
        &mut self,
        ty_name: String,
        impl_item: usize,
        suggested_module: String,
        method_count: usize,
    )
        ensures
            final(self).wf() == old(self).wf(),
            final(self).locations() == old(self).locations(),
            final(self).blocks() == old(self).blocks().push(
                ImplBlockInfo { ty_name, impl_item, suggested_module, method_count },
            ),
    {
        self.impl_blocks.push(ImplBlockInfo { ty_name, impl_item, suggested_module, method_count });
    }

    /// The placement of `ty_name`'s `impl` blocks: `Inline` when its
    /// pending groups hold fewer than ten functions, `Wrapper` when they
    /// hold more and all come from one block, `Submodule` otherwise.
    pub fn determine_strategy(&self, ty_name: &str) -> (r: ImplOrganizationStrategy)
        ensures
            is_strategy_for(r, ty_name@, pending_for(self.blocks(), ty_name@)),
    {
        let ghost bs = self.impl_blocks@;
        let mut total: usize = 0;
        let mut first_block: usize = 0;
        let mut count: usize = 0;
        let mut single = true;
        let mut modules: Vec<String> = Vec::new();
        let mut i: usize = 0;
        assert(bs.subrange(0, 0) =~= Seq::<ImplBlockInfo>::empty());
        while i < self.impl_blocks.len()
            invariant
                bs == self.impl_blocks@,
                i <= bs.len(),
                count == pending_for(bs.subrange(0, i as int), ty_name@).len(),
                pending_total(pending_for(bs.subrange(0, i as int), ty_name@)) < INLINE_LIMIT
                    ==> total == pending_total(pending_for(bs.subrange(0, i as int), ty_name@)),
                pending_total(pending_for(bs.subrange(0, i as int), ty_name@)) >= INLINE_LIMIT
                    ==> total >= INLINE_LIMIT,
                total < 2 * INLINE_LIMIT,
                count <= i,
                count > 0 ==> first_block == pending_for(bs.subrange(0, i as int), ty_name@)[0].impl_item,
                single == single_block(pending_for(bs.subrange(0, i as int), ty_name@)),
                string_views(modules@) == suggested_modules(
                    pending_for(bs.subrange(0, i as int), ty_name@),
                ),
            decreases bs.len() - i,
        {
            let ghost prev = pending_for(bs.subrange(0, i as int), ty_name@);
            assert(bs.subrange(0, i as int + 1).drop_last() =~= bs.subrange(0, i as int));
            assert(bs.subrange(0, i as int + 1).last() == bs[i as int]);
            let b = &self.impl_blocks[i];
            if same_text(b.ty_name.as_str(), ty_name) {
                let ghost next = prev.push(*b);
                assert(pending_for(bs.subrange(0, i as int + 1), ty_name@) == next);
                assert(next.drop_last() =~= prev);
                let capped = if b.method_count > INLINE_LIMIT { INLINE_LIMIT } else { b.method_count };
                if total < INLINE_LIMIT {
                    total = total + capped;
                }
                if count == 0 {
                    first_block = b.impl_item;
                } else if b.impl_item != first_block {
                    single = false;
                }
                assert(single == single_block(next)) by {
                    if count > 0 {
                        assert(next[0] == prev[0]);
                        if single_block(prev) && b.impl_item == first_block {
                            assert forall|k: int| 0 <= k < next.len() implies (#[trigger] next[k]).impl_item
                                == next[0].impl_item by {
                                if k < prev.len() {
                                    assert(next[k] == prev[k]);
                                }
                            }
                        }
                        if single_block(prev) && b.impl_item != first_block {
                            assert(next[prev.len() as int] == *b);
                        }
                        if !single_block(prev) {
                            let w = choose|w: int|
                                0 <= w < prev.len() && (#[trigger] prev[w]).impl_item != prev[0].impl_item;
                            assert(next[w] == prev[w]);
                        }
                    } else {
                        assert forall|k: int| 0 <= k < next.len() implies (#[trigger] next[k]).impl_item
                            == next[0].impl_item by {}
                    }
                }
                count = count + 1;
                let ghost old_modules = modules@;
                modules.push(b.suggested_module.clone());
                assert(modules@ == old_modules.push(modules@[modules@.len() - 1]));
                assert(string_views(modules@) =~= string_views(old_modules).push(
                    b.suggested_module@,
                ));
                assert(next[prev.len() as int] == *b);
                assert(string_views(modules@) =~= suggested_modules(next));
            } else {
                assert(pending_for(bs.subrange(0, i as int + 1), ty_name@) == prev);
            }
            i = i + 1;
        }
        assert(bs.subrange(0, i as int) =~= bs);
        if total < INLINE_LIMIT {
            ImplOrganizationStrategy::Inline
        } else if single {
            let mut module_name = lowercase(ty_name);
            module_name.append("_module");
            ImplOrganizationStrategy::Wrapper { module_name }
        } else {
            let mut parent_module = lowercase(ty_name);
            parent_module.append("_type");
            ImplOrganizationStrategy::Submodule { parent_module, impl_modules: modules }
        }
    }

    /// The module layout for `ty_name` under its placement.
    pub fn generate_module_structure(&self, ty_name: &str) -> (r: ModuleStructure)
        ensures
            is_structure_for(r, ty_name@, pending_for(self.blocks(), ty_name@)),
    {
        let strategy = self.determine_strategy(ty_name);
        match strategy {
            ImplOrganizationStrategy::Inline => {
                let mut type_module = lowercase(ty_name);
                type_module.append("_type");
                let line = re_export(type_module.as_str());
                let mut re_exports: Vec<String> = Vec::new();
                re_exports.push(line);
                assert(string_views(re_exports@) =~= seq![re_export_of(type_module@)]);
                ModuleStructure {
                    type_module,
                    needs_path_attributes: false,
                    path_includes: Vec::new(),
                    re_exports,
                }
            },
            ImplOrganizationStrategy::Wrapper { module_name } => {
                let line = re_export(module_name.as_str());
                let mut re_exports: Vec<String> = Vec::new();
                re_exports.push(line);
                assert(string_views(re_exports@) =~= seq![re_export_of(module_name@)]);
                ModuleStructure {
                    type_module: module_name,
                    needs_path_attributes: false,
                    path_includes: Vec::new(),
                    re_exports,
                }
            },
            ImplOrganizationStrategy::Submodule { parent_module, impl_modules } => {
                let mut path_includes: Vec<String> = Vec::new();
                let mut i: usize = 0;
                while i < impl_modules.len()
                    invariant
                        i <= impl_modules@.len(),
                        string_views(path_includes@) == string_views(
                            impl_modules@.subrange(0, i as int),
                        ).map_values(|m: Seq<char>| path_include_of(m)),
                    decreases impl_modules@.len() - i,
                {
                    let line = path_include(impl_modules[i].as_str());
                    let ghost before = path_includes@;
                    path_includes.push(line);
                    assert(string_views(path_includes@) =~= string_views(before).push(line@));
                    assert(string_views(impl_modules@.subrange(0, i as int + 1)) =~= string_views(
                        impl_modules@.subrange(0, i as int),
                    ).push(impl_modules@[i as int]@));
                    i = i + 1;
                }
                assert(impl_modules@.subrange(0, i as int) =~= impl_modules@);
                let line = re_export(parent_module.as_str());
                let mut re_exports: Vec<String> = Vec::new();
                re_exports.push(line);
                assert(string_views(re_exports@) =~= seq![re_export_of(parent_module@)]);
                ModuleStructure {
                    type_module: parent_module,
                    needs_path_attributes: true,
                    path_includes,
                    re_exports,
                }
            },
        }
    }

    /// The text of `ty_name`'s type module: fixed opening lines, the
    /// definition as rendered by the caller (`None` when the item is neither
    /// a struct nor an enum), then under `Submodule` the lines that bind
    /// each child module in.
    pub fn generate_type_module_content(&self, ty_name: &str, type_code: &Option<String>) -> (r: String)
        ensures
            r@ == type_module_text(
                match type_code {
                    Some(c) => Some(c@),
                    None => None,
                },
                ty_name@,
                pending_for(self.blocks(), ty_name@),
            ),
    {
        let strategy = self.determine_strategy(ty_name);
        let mut content = String::from_str("//! Auto-generated type module\n\n");
        content.append("use std::collections::{HashMap, HashSet};\n");
        content.append("use super::super::types::*;\n\n");
        match type_code {
            Some(code) => {
                content.append(code.as_str());
                content.append("\n\n");
            },
            None => {},
        }
        match strategy {
            ImplOrganizationStrategy::Submodule { impl_modules, .. } => {
                let ghost start = content@;
                content.append("// Include impl block modules\n");
                let ghost base = content@;
                let mut i: usize = 0;
                while i < impl_modules.len()
                    invariant
                        i <= impl_modules@.len(),
                        content@ == base + children_text(
                            string_views(impl_modules@.subrange(0, i as int)),
                        ),
                    decreases impl_modules@.len() - i,
                {
                    let m = impl_modules[i].as_str();
                    let ghost before = content@;
                    content.append("#[path = \"");
                    content.append(m);
                    content.append(".rs\"]\n");
                    content.append("mod ");
                    let stem = dashes_to_underscores(m);
                    content.append(stem.as_str());
                    content.append(";\n");
                    let ghost ms = string_views(impl_modules@.subrange(0, i as int + 1));
                    assert(ms.drop_last() =~= string_views(impl_modules@.subrange(0, i as int)));
                    assert(ms.last() == m@);
                    assert(content@ =~= before + child_lines_of(m@));
                    i = i + 1;
                }
                assert(impl_modules@.subrange(0, i as int) =~= impl_modules@);
                assert(content@ =~= start + ("// Include impl block modules\n"@ + children_text(
                    string_views(impl_modules@),
                )));
            },
            _ => {},
        }
        content
    }

    /// The field visibility that `ty_name`'s placement requires: visible
    /// to the parent module under `Submodule`, private otherwise.
    pub fn infer_field_visibility(&self, ty_name: &str) -> (r: FieldVisibility)
        ensures
            r == (if keeps_inline(pending_for(self.blocks(), ty_name@)) || wraps(
                pending_for(self.blocks(), ty_name@),
            ) {
                FieldVisibility::Private
            } else {
                FieldVisibility::PubSuper
            }),
    {
        let strategy = self.determine_strategy(ty_name);
        match strategy {
            ImplOrganizationStrategy::Submodule { .. } => FieldVisibility::PubSuper,
            _ => FieldVisibility::Private,
        }
    }
}

/// Whether `item` defines a struct or enum named `name`.
pub open spec fn item_defines(item: Item, name: Seq<char>) -> bool {
    match item {
        Item::Struct(t) => t.name@ == name,
        Item::Enum(t) => t.name@ == name,
        _ => false,
    }
}

/// Whether some item of `items` defines a struct or enum named `name`.
pub open spec fn defines_type(items: Seq<Item>, name: Seq<char>) -> bool {
    exists|k: int| 0 <= k < items.len() && item_defines(#[trigger] items[k], name)
}

proof fn lemma_defines_type_push(items: Seq<Item>, i: int, name: Seq<char>)
    requires
        0 <= i < items.len(),
    ensures
        defines_type(items.subrange(0, i + 1), name) <==> (defines_type(items.subrange(0, i), name)
            || item_defines(items[i], name)),
{
    let a = items.subrange(0, i);
    let b = items.subrange(0, i + 1);
    if defines_type(b, name) {
        let k = choose|k: int| 0 <= k < b.len() && item_defines(#[trigger] b[k], name);
        if k < i {
            assert(a[k] == b[k]);
        }
    }
    if defines_type(a, name) {
        let k = choose|k: int| 0 <= k < a.len() && item_defines(#[trigger] a[k], name);
        assert(b[k] == a[k]);
    }
    if item_defines(items[i], name) {
        assert(b[i] == items[i]);
    }
}

proof fn lemma_location_count(t: Seq<TypeLocation>)
    requires
        names_unique(t),
    ensures
        location_map(t).dom().len() == t.len(),
        location_map(t).dom().finite(),
    decreases t.len(),
{
    if t.len() > 0 {
        let p = t.drop_last();
        assert(names_unique(p));
        lemma_location_count(p);
        assert forall|k: int| 0 <= k < p.len() implies (#[trigger] p[k]).ty_name@ != t.last().ty_name@ by {
            assert(p[k] == t[k]);
            assert(t.last() == t[t.len() - 1]);
        }
        lemma_location_map_keys(p, t.last().ty_name@);
    }
}

} // verus!
