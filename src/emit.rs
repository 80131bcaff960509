//! Text of the generated units: the index module, the field visibility of
//! type definitions, and the lines around each unit's declarations.

use vstd::prelude::*;
use vstd::string::*;
use crate::decl::{FieldDecl, Item, TypeExpr};
use crate::imports::{
    add_sorted, collect_type_names, container_line, insert_sorted, is_container_name, join,
    names_in_type, views_of,
};
use crate::planner::{FileAnalyzer, Module, RegistryModel, UnitModel, module_view, nats};
use crate::methods::suggested_name;
use crate::scope::FieldVisibility;
use crate::text::{lowercase, lower_of};

verus! {

/// Appends to `types` the names that `ty` mentions, through paths and
/// their type arguments, references, slices, arrays, pointers and tuples.
pub fn extract_type_names(ty: &TypeExpr, types: &mut Vec<String>)
    ensures
        views_of(final(types)@) == views_of(old(types)@) + names_in_type(*ty, true),
{
    collect_type_names(ty, true, types);
}

/// The fields of a struct or enum item; none for any other item.
pub open spec fn fields_of(item: Item) -> Seq<FieldDecl> {
    match item {
        Item::Struct(t) => t.fields@,
        Item::Enum(t) => t.fields@,
        _ => seq![],
    }
}

/// The visibility change for one field: a private field takes `v` unless
/// `v` is itself private; a field that is already visible keeps its own.
pub open spec fn field_change(f: FieldDecl, v: FieldVisibility) -> Option<FieldVisibility> {
    if f.is_private && v != FieldVisibility::Private {
        Some(v)
    } else {
        None
    }
}

/// The visibility to give each field of `item` (in order; `None` keeps
/// the field as declared) so that its fields are at least as visible as
/// `visibility`: only private fields are raised, none is lowered.
pub fn apply_field_visibility(item: &Item, visibility: FieldVisibility) -> (r: Vec<Option<FieldVisibility>>)
    ensures
        r@.len() == fields_of(*item).len(),
        forall|k: int| 0 <= k < r@.len() ==> #[trigger] r@[k] == field_change(fields_of(*item)[k], visibility),
{
    let fields = match item {
        Item::Struct(t) => &t.fields,
        Item::Enum(t) => &t.fields,
        _ => {
            return Vec::new();
        },
    };
    let mut r: Vec<Option<FieldVisibility>> = Vec::new();
    let mut k: usize = 0;
    while k < fields.len()
        invariant
            fields@ == fields_of(*item),
            k <= fields@.len(),
            r@.len() == k,
            forall|j: int| 0 <= j < k ==> #[trigger] r@[j] == field_change(fields@[j], visibility),
        decreases fields@.len() - k,
    {
        let change = if fields[k].is_private && visibility != FieldVisibility::Private {
            Some(visibility)
        } else {
            None
        };
        r.push(change);
        k = k + 1;
    }
    r
}

/// The index module's text for units named `names`: a header, one
/// `pub mod` line per unit, then one re-export line per unit, in order.
pub open spec fn mod_rs_text(names: Seq<Seq<char>>) -> Seq<char> {
    "//! Auto-generated module structure\n\n"@ + mod_lines(names, names.len() as int)
        + "\n// Re-export all types\n"@ + reexport_lines(names, names.len() as int)
}

/// `pub mod` lines of the first `k` names.
pub open spec fn mod_lines(names: Seq<Seq<char>>, k: int) -> Seq<char>
    decreases k,
{
    if k <= 0 {
        seq![]
    } else {
        mod_lines(names, k - 1) + "pub mod "@ + names[k - 1] + ";\n"@
    }
}

/// Re-export lines of the first `k` names.
pub open spec fn reexport_lines(names: Seq<Seq<char>>, k: int) -> Seq<char>
    decreases k,
{
    if k <= 0 {
        seq![]
    } else {
        reexport_lines(names, k - 1) + "pub use "@ + names[k - 1] + "::*;\n"@
    }
}

/// The names of `units`.
pub open spec fn unit_names_of(units: Seq<Module>) -> Seq<Seq<char>> {
    units.map_values(|m: Module| m.name@)
}

/// The index module that declares and re-exports every unit.
pub fn generate_mod_rs(modules: &Vec<Module>) -> (r: String)
    ensures
        r@ == mod_rs_text(unit_names_of(modules@)),
{
    let ghost names = unit_names_of(modules@);
    let mut content = String::from_str("//! Auto-generated module structure\n\n");
    let ghost start = content@;
    let mut i: usize = 0;
    while i < modules.len()
        invariant
            names == unit_names_of(modules@),
            i <= modules@.len(),
            content@ == start + mod_lines(names, i as int),
        decreases modules@.len() - i,
    {
        let ghost before = content@;
        content.append("pub mod ");
        content.append(modules[i].name.as_str());
        content.append(";\n");
        assert(names[i as int] == modules@[i as int].name@);
        assert(content@ =~= before + "pub mod "@ + names[i as int] + ";\n"@);
        i = i + 1;
    }
    content.append("\n// Re-export all types\n");
    let ghost mid = content@;
    let mut i: usize = 0;
    while i < modules.len()
        invariant
            names == unit_names_of(modules@),
            i <= modules@.len(),
            content@ == mid + reexport_lines(names, i as int),
        decreases modules@.len() - i,
    {
        let ghost before = content@;
        content.append("pub use ");
        content.append(modules[i].name.as_str());
        content.append("::*;\n");
        assert(names[i as int] == modules@[i as int].name@);
        assert(content@ =~= before + "pub use "@ + names[i as int] + "::*;\n"@);
        i = i + 1;
    }
    assert(content@ =~= mod_rs_text(names));
    content
}

/// The line that credits the tool in each unit's header.
pub open spec fn credit_line() -> Seq<char> {
    "//! 🤖 Generated with [SplitRS](https://github.com/cool-japan/splitrs)\n\n"@
}

/// The bullet lines naming the traits `ts`.
pub open spec fn trait_bullets(ts: Seq<Seq<char>>, k: int) -> Seq<char>
    decreases k,
{
    if k <= 0 {
        seq![]
    } else {
        trait_bullets(ts, k - 1) + "//! - `"@ + ts[k - 1] + "`\n"@
    }
}

/// The pieces `ps`, each followed by a line break.
pub open spec fn lines_each(ps: Seq<Seq<char>>, k: int) -> Seq<char>
    decreases k,
{
    if k <= 0 {
        seq![]
    } else {
        lines_each(ps, k - 1) + ps[k - 1] + "\n"@
    }
}

/// The pieces `ps` end to end.
pub open spec fn concat_all(ps: Seq<Seq<char>>, k: int) -> Seq<char>
    decreases k,
{
    if k <= 0 {
        seq![]
    } else {
        concat_all(ps, k - 1) + ps[k - 1]
    }
}

/// The container names among `names`, sorted and without repeats.
pub open spec fn containers_among(names: Seq<Seq<char>>, k: int) -> Seq<Seq<char>>
    decreases k,
{
    if k <= 0 {
        seq![]
    } else if is_container_name(names[k - 1]) {
        insert_sorted(containers_among(names, k - 1), names[k - 1])
    } else {
        containers_among(names, k - 1)
    }
}

/// The import lines of a unit of type definitions whose fields mention
/// `names`: the grouped collections line when a collection is mentioned,
/// then a blank line; nothing when the fields mention no type.
pub open spec fn field_imports(names: Seq<Seq<char>>) -> Seq<char> {
    let cs = containers_among(names, names.len() as int);
    if names.len() == 0 {
        seq![]
    } else if cs.len() > 0 {
        container_line(cs) + "\n"@ + "\n"@
    } else {
        "\n"@
    }
}

/// The text of a unit `u`: a header comment, its imports, then its
/// declarations as rendered (`rendered`, one piece per trait
/// implementation for a trait unit, otherwise the unit's declarations).
/// `traits` names the unit's implemented traits and `fields` the types
/// that the fields of its type definitions mention.
pub open spec fn content_text(
    u: UnitModel,
    traits: Seq<Seq<char>>,
    fields: Seq<Seq<char>>,
    rendered: Seq<Seq<char>>,
) -> Seq<char> {
    match u.trait_type {
        Some(t) => "//! # "@ + t + " - Trait Implementations\n//!\n"@
            + "//! This module contains trait implementations for `"@ + t + "`.\n//!\n"@
            + "//! ## Implemented Traits\n//!\n"@ + trait_bullets(traits, traits.len() as int)
            + "//!\n"@ + credit_line() + "use super::types::"@ + t + ";\n\n"@ + lines_each(
            rendered,
            rendered.len() as int,
        ),
        None => match u.impl_type {
            Some(t) => {
                let imports = "use std::collections::{HashMap, HashSet};\n"@ + "use super::"@ + lower_of(t)
                    + "_type::"@ + t + ";\n"@ + "\n"@;
                match u.group {
                    Some(g) => "//! # "@ + t + " - "@ + suggested_name(g) + " Methods\n//!\n"@
                        + "//! This module contains method implementations for `"@ + t
                        + "`.\n//!\n"@ + credit_line() + imports + concat_all(
                        rendered,
                        rendered.len() as int,
                    ),
                    None => "//! Auto-generated module\n\n"@ + imports + field_imports(fields)
                        + concat_all(rendered, rendered.len() as int),
                }
            },
            None => "//! Auto-generated module\n//!\n"@ + credit_line() + field_imports(fields)
                + concat_all(rendered, rendered.len() as int),
        },
    }
}

/// The trait names of the unit's trait implementations, given the registry.
pub open spec fn unit_traits(reg: RegistryModel, ts: Seq<nat>, k: int) -> Seq<Seq<char>>
    decreases k,
{
    if k <= 0 {
        seq![]
    } else {
        let j = ts[k - 1];
        let prev = unit_traits(reg, ts, k - 1);
        if j < reg.traits.len() {
            prev.push(reg.traits[j as int].1)
        } else {
            prev
        }
    }
}

/// The type names that the fields of the first `k` of `fs` mention.
pub open spec fn names_in_fields(fs: Seq<FieldDecl>, k: int) -> Seq<Seq<char>>
    decreases k,
{
    if k <= 0 {
        seq![]
    } else {
        names_in_fields(fs, k - 1) + names_in_type(fs[k - 1].ty, true)
    }
}

/// The type names that the fields of the unit's first `k` types mention.
pub open spec fn unit_field_names(items: Seq<Item>, reg: RegistryModel, ts: Seq<nat>, k: int) -> Seq<Seq<char>>
    decreases k,
{
    if k <= 0 {
        seq![]
    } else {
        let prev = unit_field_names(items, reg, ts, k - 1);
        let t = ts[k - 1];
        if t < reg.types.len() && reg.types[t as int].1 < items.len() {
            let fs = fields_of(items[reg.types[t as int].1 as int]);
            prev + names_in_fields(fs, fs.len() as int)
        } else {
            prev
        }
    }
}

/// Appends each piece of `ps`, followed by a line break when `newline`.
fn append_pieces(content: &mut String, ps: &Vec<String>, newline: bool)
    ensures
        final(content)@ == old(content)@ + if newline {
            lines_each(views_of(ps@), ps@.len() as int)
        } else {
            concat_all(views_of(ps@), ps@.len() as int)
        },
{
    let ghost start = content@;
    let ghost vs = views_of(ps@);
    let mut i: usize = 0;
    while i < ps.len()
        invariant
            vs == views_of(ps@),
            i <= ps@.len(),
            content@ == start + if newline {
                lines_each(vs, i as int)
            } else {
                concat_all(vs, i as int)
            },
        decreases ps@.len() - i,
    {
        let ghost before = content@;
        content.append(ps[i].as_str());
        if newline {
            content.append("\n");
        }
        assert(vs[i as int] == ps@[i as int]@);
        i = i + 1;
    }
}

impl Module {
    /// The trait names of this unit's trait implementations.
    fn trait_names(&self, analyzer: &FileAnalyzer) -> (r: Vec<String>)
        ensures
            views_of(r@) == unit_traits(analyzer.model(), nats(self.trait_impls@), self.trait_impls@.len() as int),
    {
        let ghost ts = nats(self.trait_impls@);
        let mut r: Vec<String> = Vec::new();
        let mut k: usize = 0;
        while k < self.trait_impls.len()
            invariant
                ts == nats(self.trait_impls@),
                k <= self.trait_impls@.len(),
                views_of(r@) == unit_traits(analyzer.model(), ts, k as int),
            decreases self.trait_impls@.len() - k,
        {
            let j = self.trait_impls[k];
            match analyzer.trait_name_at(j) {
                Some(name) => {
                    let ghost before = r@;
                    let ghost nv = name@;
                    r.push(name);
                    assert(views_of(r@) =~= views_of(before).push(nv));
                    assert(views_of(r@) =~= unit_traits(analyzer.model(), ts, k as int + 1));
                },
                None => {},
            }
            k = k + 1;
        }
        r
    }

    /// The type names mentioned by the fields of this unit's types.
    fn field_type_names(&self, analyzer: &FileAnalyzer, items: &Vec<Item>) -> (r: Vec<String>)
        ensures
            views_of(r@) == unit_field_names(items@, analyzer.model(), nats(self.types@), self.types@.len() as int),
    {
        let ghost ts = nats(self.types@);
        let mut r: Vec<String> = Vec::new();
        let mut k: usize = 0;
        while k < self.types.len()
            invariant
                ts == nats(self.types@),
                k <= self.types@.len(),
                views_of(r@) == unit_field_names(items@, analyzer.model(), ts, k as int),
            decreases self.types@.len() - k,
        {
            let ghost before = views_of(r@);
            match analyzer.type_item_at(self.types[k]) {
                Some(idx) => {
                    if idx < items.len() {
                        let fs: &Vec<FieldDecl> = match &items[idx] {
                            Item::Struct(t) => &t.fields,
                            Item::Enum(t) => &t.fields,
                            _ => &Vec::new(),
                        };
                        let ghost fsv = fields_of(items@[idx as int]);
                        assert(fs@ == fsv);
                        let mut f: usize = 0;
                        while f < fs.len()
                            invariant
                                f <= fs@.len(),
                                views_of(r@) == before + names_in_fields(fs@, f as int),
                            decreases fs@.len() - f,
                        {
                            extract_type_names(&fs[f].ty, &mut r);
                            f = f + 1;
                        }
                    }
                },
                None => {},
            }
            k = k + 1;
        }
        r
    }

    /// The unit's text: a header comment naming what it holds, its
    /// imports, and `rendered`, its declarations as formatted by the
    /// caller (for a trait unit one piece per trait implementation, each
    /// followed by a line break).
    pub fn generate_content(&self, analyzer: &FileAnalyzer, items: &Vec<Item>, rendered: &Vec<String>) -> (r: String)
        ensures
            r@ == content_text(
                module_view(*self),
                unit_traits(analyzer.model(), nats(self.trait_impls@), self.trait_impls@.len() as int),
                unit_field_names(items@, analyzer.model(), nats(self.types@), self.types@.len() as int),
                views_of(rendered@),
            ),
    {
        let ghost u = module_view(*self);
        match &self.type_name_for_traits {
            Some(t) => {
                let traits = self.trait_names(analyzer);
                let ghost tv = views_of(traits@);
                let mut content = String::from_str("//! # ");
                content.append(t.as_str());
                content.append(" - Trait Implementations\n//!\n");
                content.append("//! This module contains trait implementations for `");
                content.append(t.as_str());
                content.append("`.\n//!\n");
                content.append("//! ## Implemented Traits\n//!\n");
                let ghost start = content@;
                let mut k: usize = 0;
                while k < traits.len()
                    invariant
                        tv == views_of(traits@),
                        k <= traits@.len(),
                        content@ == start + trait_bullets(tv, k as int),
                    decreases traits@.len() - k,
                {
                    let ghost before = content@;
                    content.append("//! - `");
                    content.append(traits[k].as_str());
                    content.append("`\n");
                    assert(tv[k as int] == traits@[k as int]@);
                    assert(content@ =~= before + "//! - `"@ + tv[k as int] + "`\n"@);
                    k = k + 1;
                }
                content.append("//!\n");
                content.append("//! 🤖 Generated with [SplitRS](https://github.com/cool-japan/splitrs)\n\n");
                content.append("use super::types::");
                content.append(t.as_str());
                content.append(";\n\n");
                append_pieces(&mut content, rendered, true);
                return content;
            },
            None => {},
        }
        let fields = self.field_type_names(analyzer, items);
        let ghost fv = views_of(fields@);
        let mut content = String::new();
        match &self.impl_type_name {
            Some(t) => {
                let lower = lowercase(t.as_str());
                let mut imports = String::from_str("use std::collections::{HashMap, HashSet};\n");
                imports.append("use super::");
                imports.append(lower.as_str());
                imports.append("_type::");
                imports.append(t.as_str());
                imports.append(";\n");
                imports.append("\n");
                match &self.method_group {
                    Some(g) => {
                        content.append("//! # ");
                        content.append(t.as_str());
                        content.append(" - ");
                        let sug = g.suggest_name();
                        content.append(sug.as_str());
                        content.append(" Methods\n//!\n");
                        content.append("//! This module contains method implementations for `");
                        content.append(t.as_str());
                        content.append("`.\n//!\n");
                        content.append("//! 🤖 Generated with [SplitRS](https://github.com/cool-japan/splitrs)\n\n");
                        content.append(imports.as_str());
                        append_pieces(&mut content, rendered, false);
                        return content;
                    },
                    None => {
                        content.append("//! Auto-generated module\n\n");
                        content.append(imports.as_str());
                    },
                }
            },
            None => {
                content.append("//! Auto-generated module\n//!\n");
                content.append("//! 🤖 Generated with [SplitRS](https://github.com/cool-japan/splitrs)\n\n");
            },
        }
        if fields.len() > 0 {
            let mut containers: Vec<String> = Vec::new();
            let mut k: usize = 0;
            while k < fields.len()
                invariant
                    fv == views_of(fields@),
                    k <= fields@.len(),
                    views_of(containers@) == containers_among(fv, k as int),
                decreases fields@.len() - k,
            {
                assert(fv[k as int] == fields@[k as int]@);
                if crate::imports::is_container(fields[k].as_str()) {
                    add_sorted(&mut containers, fields[k].clone());
                }
                k = k + 1;
            }
            if containers.len() > 0 {
                content.append("use std::collections::{");
                let names = join(&containers);
                content.append(names.as_str());
                content.append("};");
                content.append("\n");
            }
            content.append("\n");
        }
        append_pieces(&mut content, rendered, false);
        content
    }
}

} // verus!
