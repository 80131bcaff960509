//! Import statements for a generated module: which names need a `use`
//! line, grouped and ordered so that identical input gives identical
//! output.

use vstd::prelude::*;
use vstd::string::*;
use vstd::seq_lib::*;
use crate::decl::{Item, TypeExpr};
use crate::text::{same_text, trim, trim_of, is_uppercase, upper_of};

verus! {

/// Built-in scalar type names; they are never imported.
pub open spec fn is_primitive_name(s: Seq<char>) -> bool {
    s == "i8"@ || s == "i16"@ || s == "i32"@ || s == "i64"@ || s == "i128"@ || s == "isize"@
        || s == "u8"@ || s == "u16"@ || s == "u32"@ || s == "u64"@ || s == "u128"@ || s
        == "usize"@ || s == "f32"@ || s == "f64"@ || s == "bool"@ || s == "char"@ || s == "str"@
        || s == "()"@
}

/// The standard collection types that are imported from
/// `std::collections` on one grouped line.
pub open spec fn is_container_name(s: Seq<char>) -> bool {
    s == "HashMap"@ || s == "HashSet"@ || s == "VecDeque"@ || s == "BTreeMap"@ || s == "BTreeSet"@
}

/// Well-known standard types: the collections, and those in the prelude or
/// otherwise never resolved through the symbol map.
pub open spec fn is_std_name(s: Seq<char>) -> bool {
    s == "String"@ || s == "Vec"@ || s == "Option"@ || s == "Result"@ || s == "Box"@ || s
        == "Arc"@ || s == "Rc"@ || is_container_name(s)
}

/// Lexicographic order of character sequences by code point.
pub open spec fn text_less(a: Seq<char>, b: Seq<char>) -> bool
    decreases a.len(),
{
    if a.len() == 0 {
        b.len() > 0
    } else if b.len() == 0 {
        false
    } else if a[0] != b[0] {
        (a[0] as int) < (b[0] as int)
    } else {
        text_less(a.drop_first(), b.drop_first())
    }
}

/// `s` with `x` added in order, unless `s` holds it already: `x` goes
/// before the first element that is equal to it or greater.
pub open spec fn insert_sorted(s: Seq<Seq<char>>, x: Seq<char>) -> Seq<Seq<char>>
    decreases s.len(),
{
    if s.len() == 0 {
        seq![x]
    } else if s[0] == x {
        s
    } else if text_less(x, s[0]) {
        seq![x] + s
    } else {
        seq![s[0]] + insert_sorted(s.drop_first(), x)
    }
}

/// The import line of path `p`.
pub open spec fn use_line(p: Seq<char>) -> Seq<char> {
    "use "@ + p + ";"@
}

/// Imports gathered so far: container names, then the lines whose path is
/// parent-relative, root-relative, and any other.
pub struct Buckets {
    pub containers: Seq<Seq<char>>,
    pub parent: Seq<Seq<char>>,
    pub root: Seq<Seq<char>>,
    pub other: Seq<Seq<char>>,
}

/// The buckets after the first `k` referenced names.
pub open spec fn buckets_upto(m: Map<Seq<char>, Seq<char>>, types: Seq<Seq<char>>, k: int) -> Buckets
    decreases k,
{
    if k <= 0 {
        Buckets { containers: seq![], parent: seq![], root: seq![], other: seq![] }
    } else {
        let b = buckets_upto(m, types, k - 1);
        let t = types[k - 1];
        if is_primitive_name(t) {
            b
        } else if is_std_name(t) {
            if is_container_name(t) {
                Buckets { containers: insert_sorted(b.containers, t), ..b }
            } else {
                b
            }
        } else if m.contains_key(t) {
            let p = m[t];
            if has_text_prefix(p, "super::"@) {
                Buckets { parent: insert_sorted(b.parent, use_line(p)), ..b }
            } else if has_text_prefix(p, "crate::"@) {
                Buckets { root: insert_sorted(b.root, use_line(p)), ..b }
            } else {
                Buckets { other: insert_sorted(b.other, use_line(p)), ..b }
            }
        } else {
            b
        }
    }
}

/// Whether `p` starts with `q`.
pub open spec fn has_text_prefix(p: Seq<char>, q: Seq<char>) -> bool {
    q.len() <= p.len() && p.subrange(0, q.len() as int) == q
}

/// `s` joined with `, `.
pub open spec fn join_names(s: Seq<Seq<char>>) -> Seq<char>
    decreases s.len(),
{
    if s.len() == 0 {
        seq![]
    } else if s.len() == 1 {
        s[0]
    } else {
        join_names(s.drop_last()) + ", "@ + s.last()
    }
}

/// The grouped import line of the container names `s`.
pub open spec fn container_line(s: Seq<Seq<char>>) -> Seq<char> {
    "use std::collections::{"@ + join_names(s) + "};"@
}

/// The import lines of a module that refers to `types`, given the symbol
/// map `m`: the grouped container line first, when a container is
/// referenced, then the parent-relative, root-relative and other lines,
/// each group sorted and without repeats.
pub open spec fn use_statements(m: Map<Seq<char>, Seq<char>>, types: Seq<Seq<char>>) -> Seq<Seq<char>> {
    let b = buckets_upto(m, types, types.len() as int);
    let head = if b.containers.len() > 0 {
        seq![container_line(b.containers)]
    } else {
        seq![]
    };
    head + b.parent + b.root + b.other
}


/// Where the last piece of `s` split at `::` starts, scanning from `i`
/// with the latest piece starting at `start`; separators are matched left
/// to right without overlap.
pub open spec fn piece_start(s: Seq<char>, i: int, start: int) -> int
    decreases s.len() - i,
{
    if i < 0 || i + 1 >= s.len() {
        start
    } else if s[i] == ':' && s[i + 1] == ':' {
        piece_start(s, i + 2, i + 2)
    } else {
        piece_start(s, i + 1, start)
    }
}

/// The last piece of `s` split at `::`.
pub open spec fn last_piece(s: Seq<char>) -> Seq<char> {
    s.subrange(piece_start(s, 0, 0), s.len() as int)
}

/// `s` without its trailing `;` characters.
pub open spec fn strip_semicolons(s: Seq<char>) -> Seq<char>
    decreases s.len(),
{
    if s.len() > 0 && s.last() == ';' {
        strip_semicolons(s.drop_last())
    } else {
        s
    }
}

/// `s` from `i` on, with each `use ` removed, matching left to right.
pub open spec fn drop_use_from(s: Seq<char>, i: int) -> Seq<char>
    decreases s.len() - i,
{
    if i < 0 || i >= s.len() {
        seq![]
    } else if i + 4 <= s.len() && s.subrange(i, i + 4) == "use "@ {
        drop_use_from(s, i + 4)
    } else {
        seq![s[i]] + drop_use_from(s, i + 1)
    }
}

/// The symbol-map entry that a `use` declaration's token text gives: the
/// last path piece when it starts with an uppercase letter, mapped to the
/// declaration's path.
pub open spec fn use_mapping(text: Seq<char>) -> Option<(Seq<char>, Seq<char>)> {
    let name = trim_of(strip_semicolons(last_piece(text)));
    if name.len() > 0 && upper_of(name[0]) {
        Some((name, trim_of(strip_semicolons(drop_use_from(text, 0)))))
    } else {
        None
    }
}

/// Where a type defined in the original file is imported from.
pub open spec fn types_path(name: Seq<char>) -> Seq<char> {
    "super::types::"@ + name
}

/// The symbol map after `m` has taken in the first `k` items.
pub open spec fn file_mappings(m: Map<Seq<char>, Seq<char>>, items: Seq<Item>, k: int) -> Map<
    Seq<char>,
    Seq<char>,
>
    decreases k,
{
    if k <= 0 {
        m
    } else {
        let prev = file_mappings(m, items, k - 1);
        match items[k - 1] {
            Item::Use(text) => match use_mapping(text@) {
                Some((n, p)) => prev.insert(n, p),
                None => prev,
            },
            Item::Struct(t) => prev.insert(t.name@, types_path(t.name@)),
            Item::Enum(t) => prev.insert(t.name@, types_path(t.name@)),
            Item::TypeAlias(n) => prev.insert(n@, types_path(n@)),
            _ => prev,
        }
    }
}

/// Where the last `::`-piece of `s` starts.
fn last_piece_start(s: &str) -> (r: usize)
    ensures
        r as int == piece_start(s@, 0, 0),
        r <= s@.len(),
{
    let n = s.unicode_len();
    let mut i: usize = 0;
    let mut start: usize = 0;
    while i < n && n - i > 1
        invariant
            n == s@.len(),
            i <= n,
            start <= i,
            start <= n,
            piece_start(s@, 0, 0) == piece_start(s@, i as int, start as int),
        decreases n + 1 - i,
    {
        if s.get_char(i) == ':' && s.get_char(i + 1) == ':' {
            i = i + 2;
            start = i;
        } else {
            i = i + 1;
        }
    }
    start
}

/// The characters of `s` from `from` to `to`.
fn slice_text(s: &str, from: usize, to: usize) -> (r: String)
    requires
        from <= to <= s@.len(),
    ensures
        r@ == s@.subrange(from as int, to as int),
{
    String::from_str(s.substring_char(from, to))
}

/// `s` without trailing `;`.
fn strip_trailing_semicolons(s: &str) -> (r: String)
    ensures
        r@ == strip_semicolons(s@),
{
    let mut n = s.unicode_len();
    assert(s@.subrange(0, n as int) =~= s@);
    while n > 0 && s.get_char(n - 1) == ';'
        invariant
            n <= s@.len(),
            strip_semicolons(s@) == strip_semicolons(s@.subrange(0, n as int)),
        decreases n,
    {
        assert(s@.subrange(0, n as int).drop_last() =~= s@.subrange(0, n as int - 1));
        n = n - 1;
    }
    assert(n == 0 ==> s@.subrange(0, n as int) =~= Seq::<char>::empty());
    slice_text(s, 0, n)
}

/// `s` with each `use ` removed.
fn drop_use(s: &str) -> (r: String)
    ensures
        r@ == drop_use_from(s@, 0),
{
    let n = s.unicode_len();
    let mut r = String::new();
    let mut i: usize = 0;
    while i < n
        invariant
            n == s@.len(),
            i <= n,
            r@ + drop_use_from(s@, i as int) == drop_use_from(s@, 0),
        decreases n - i,
    {
        if n - i >= 4 && s.get_char(i) == 'u' && s.get_char(i + 1) == 's' && s.get_char(i + 2) == 'e'
            && s.get_char(i + 3) == ' ' {
            proof {
                reveal_strlit("use ");
                assert(s@.subrange(i as int, i as int + 4) =~= "use "@);
            }
            i = i + 4;
        } else {
            proof {
                reveal_strlit("use ");
                if i + 4 <= n {
                    assert(s@.subrange(i as int, i as int + 4) != "use "@) by {
                        let t = s@.subrange(i as int, i as int + 4);
                        if t == "use "@ {
                            assert(t[0] == 'u' && t[1] == 's' && t[2] == 'e' && t[3] == ' ');
                        }
                    }
                }
            }
            let c = s.get_char(i);
            let ghost before = r@;
            crate::text::push_char(&mut r, c);
            assert(r@ + drop_use_from(s@, i as int + 1) =~= before + drop_use_from(s@, i as int));
            i = i + 1;
        }
    }
    assert(r@ + drop_use_from(s@, i as int) =~= r@);
    r
}


/// The type names that a type expression mentions, in pre-order: a path's
/// own name, then those of its type arguments; through references and
/// tuples, and, when `deep`, through slices, arrays and pointers too.
pub open spec fn names_in_type(ty: TypeExpr, deep: bool) -> Seq<Seq<char>>
    decreases ty, 0int,
{
    match ty {
        TypeExpr::Path { name, args } => seq![name@] + names_in_types(args@, deep, args@.len() as int),
        TypeExpr::Reference(inner) => names_in_type(*inner, deep),
        TypeExpr::Tuple(elems) => names_in_types(elems@, deep, elems@.len() as int),
        TypeExpr::Slice(inner) => if deep {
            names_in_type(*inner, deep)
        } else {
            seq![]
        },
        TypeExpr::Array(inner) => if deep {
            names_in_type(*inner, deep)
        } else {
            seq![]
        },
        TypeExpr::Ptr(inner) => if deep {
            names_in_type(*inner, deep)
        } else {
            seq![]
        },
        TypeExpr::Other => seq![],
    }
}

/// The names that the first `k` of `v` mention, in order.
pub open spec fn names_in_types(v: Seq<TypeExpr>, deep: bool, k: int) -> Seq<Seq<char>>
    decreases v, k,
{
    if k <= 0 || k > v.len() {
        seq![]
    } else {
        names_in_types(v, deep, k - 1) + names_in_type(v[k - 1], deep)
    }
}

/// Appends to `out` the names that `ty` mentions.
#[verifier::loop_isolation(false)]
pub fn collect_type_names(ty: &TypeExpr, deep: bool, out: &mut Vec<String>)
    ensures
        views_of(final(out)@) == views_of(old(out)@) + names_in_type(*ty, deep),
    decreases *ty,
{
    match ty {
        TypeExpr::Path { name, args } => {
            let ghost before = views_of(out@);
            out.push(name.clone());
            assert(views_of(out@) =~= before + seq![name@]);
            let ghost mid = views_of(out@);
            let mut i: usize = 0;
            while i < args.len()
                invariant
                    i <= args@.len(),
                    views_of(out@) == mid + names_in_types(args@, deep, i as int),
                decreases args@.len() - i,
            {
                proof {
                    assert(*args == (*ty)->args);
                    assert(decreases_to!(*ty => (*ty)->args));
                    assert(decreases_to!(args => args@));
                    assert(decreases_to!(args@ => args@[i as int]));
                }
                collect_type_names(&args[i], deep, out);
                i = i + 1;
            }
        },
        TypeExpr::Reference(inner) => {
            collect_type_names(inner, deep, out);
        },
        TypeExpr::Tuple(elems) => {
            let ghost mid = views_of(out@);
            assert(views_of(out@) =~= mid + names_in_types(elems@, deep, 0));
            let mut i: usize = 0;
            while i < elems.len()
                invariant
                    i <= elems@.len(),
                    views_of(out@) == mid + names_in_types(elems@, deep, i as int),
                decreases elems@.len() - i,
            {
                proof {
                    assert(*elems == (*ty)->Tuple_0);
                    assert(decreases_to!(*ty => (*ty)->Tuple_0));
                    assert(decreases_to!(elems => elems@));
                    assert(decreases_to!(elems@ => elems@[i as int]));
                }
                collect_type_names(&elems[i], deep, out);
                i = i + 1;
            }
            assert(views_of(out@) =~= mid + names_in_type(*ty, deep));
        },
        TypeExpr::Slice(inner) => {
            if deep {
                collect_type_names(inner, deep, out);
            } else {
                assert(views_of(out@) =~= views_of(out@) + names_in_type(*ty, deep));
            }
        },
        TypeExpr::Array(inner) => {
            if deep {
                collect_type_names(inner, deep, out);
            } else {
                assert(views_of(out@) =~= views_of(out@) + names_in_type(*ty, deep));
            }
        },
        TypeExpr::Ptr(inner) => {
            if deep {
                collect_type_names(inner, deep, out);
            } else {
                assert(views_of(out@) =~= views_of(out@) + names_in_type(*ty, deep));
            }
        },
        TypeExpr::Other => {
            assert(views_of(out@) =~= views_of(out@) + names_in_type(*ty, deep));
        },
    }
}

/// Collects the type names that a function refers to: the names its type
/// expressions mention, and capitalised path expressions (which may name
/// types or enum variants).
pub struct TypeVisitor {
    /// Names found so far, in the order found.
    pub types_used: Vec<String>,
}

impl TypeVisitor {
    /// A visitor that has found nothing.
    pub fn new() -> (r: Self)
        ensures
            r.types_used@.len() == 0,
    {
        TypeVisitor { types_used: Vec::new() }
    }

    /// Takes in a type expression: its path names and those of its type
    /// arguments, through references and tuples.
    pub fn extract_type_name(&mut self, ty: &TypeExpr)
        ensures
            views_of(final(self).types_used@) == views_of(old(self).types_used@) + names_in_type(
                *ty,
                false,
            ),
    {
        collect_type_names(ty, false, &mut self.types_used);
    }

    /// Takes in the last identifier of a path expression: it is kept when
    /// it starts with an uppercase letter.
    pub fn visit_path_expr(&mut self, name: &str)
        ensures
            views_of(final(self).types_used@) == views_of(old(self).types_used@) + if name@.len() > 0
                && upper_of(name@[0]) {
                seq![name@]
            } else {
                seq![]
            },
    {
        let ghost before = views_of(self.types_used@);
        if name.unicode_len() > 0 && is_uppercase(name.get_char(0)) {
            self.types_used.push(String::from_str(name));
            assert(views_of(self.types_used@) =~= before + seq![name@]);
        } else {
            assert(views_of(self.types_used@) =~= before + Seq::<Seq<char>>::empty());
        }
    }
}

/// Whether `a` comes before `b`.
pub fn text_before(a: &str, b: &str) -> (r: bool)
    ensures
        r == text_less(a@, b@),
{
    let n = a.unicode_len();
    let m = b.unicode_len();
    let mut i: usize = 0;
    assert(a@.subrange(0, n as int) =~= a@);
    assert(b@.subrange(0, m as int) =~= b@);
    while i < n && i < m
        invariant
            n == a@.len(),
            m == b@.len(),
            i <= n,
            i <= m,
            text_less(a@, b@) == text_less(a@.subrange(i as int, n as int), b@.subrange(i as int, m as int)),
        decreases n - i,
    {
        let ca = a.get_char(i);
        let cb = b.get_char(i);
        let ghost sa = a@.subrange(i as int, n as int);
        let ghost sb = b@.subrange(i as int, m as int);
        assert(sa[0] == ca && sb[0] == cb);
        if ca != cb {
            return (ca as u32) < (cb as u32);
        }
        assert(sa.drop_first() =~= a@.subrange(i as int + 1, n as int));
        assert(sb.drop_first() =~= b@.subrange(i as int + 1, m as int));
        i = i + 1;
    }
    i < m
}

proof fn lemma_insert_at(s: Seq<Seq<char>>, x: Seq<char>, i: int)
    requires
        0 <= i <= s.len(),
        forall|j: int| 0 <= j < i ==> #[trigger] s[j] != x && !text_less(x, s[j]),
        i < s.len() ==> (s[i] == x || text_less(x, s[i])),
    ensures
        insert_sorted(s, x) == if i < s.len() && s[i] == x {
            s
        } else {
            s.insert(i, x)
        },
    decreases i,
{
    if i == 0 {
        if s.len() > 0 && s[0] != x {
            assert(seq![x] + s =~= s.insert(0, x));
        } else if s.len() == 0 {
            assert(seq![x] =~= s.insert(0, x));
        }
    } else {
        let t = s.drop_first();
        assert forall|j: int| 0 <= j < i - 1 implies #[trigger] t[j] != x && !text_less(x, t[j]) by {
            assert(t[j] == s[j + 1]);
        }
        assert(s[0] != x && !text_less(x, s[0]));
        lemma_insert_at(t, x, i - 1);
        if i < s.len() && s[i] == x {
            assert(t[i - 1] == s[i]);
            assert(seq![s[0]] + t =~= s);
        } else {
            if i < s.len() {
                assert(t[i - 1] == s[i]);
            }
            assert(seq![s[0]] + t.insert(i - 1, x) =~= s.insert(i, x));
        }
    }
}

/// Adds `x` to the sorted list `v` unless it is there.
pub(crate) fn add_sorted(v: &mut Vec<String>, x: String)
    ensures
        views_of(final(v)@) == insert_sorted(views_of(old(v)@), x@),
{
    let ghost s = views_of(v@);
    let mut i: usize = 0;
    while i < v.len()
        invariant
            s == views_of(v@),
            i <= v@.len(),
            forall|j: int| 0 <= j < i ==> #[trigger] s[j] != x@ && !text_less(x@, s[j]),
        ensures
            i <= v@.len(),
            forall|j: int| 0 <= j < i ==> #[trigger] s[j] != x@ && !text_less(x@, s[j]),
            i < v@.len() ==> (s[i as int] == x@ || text_less(x@, s[i as int])),
        decreases v@.len() - i,
    {
        if v[i] == x {
            break;
        }
        if text_before(x.as_str(), v[i].as_str()) {
            break;
        }
        i = i + 1;
    }
    proof {
        lemma_insert_at(s, x@, i as int);
    }
    if i < v.len() && v[i] == x {
        return;
    }
    let ghost xv = x@;
    v.insert(i, x);
    assert(views_of(v@) =~= s.insert(i as int, xv));
}

/// The characters of each string in `v`.
pub open spec fn views_of(v: Seq<String>) -> Seq<Seq<char>> {
    v.map_values(|s: String| s@)
}

/// `s` joined with `, `, computed.
pub(crate) fn join(s: &Vec<String>) -> (r: String)
    ensures
        r@ == join_names(views_of(s@)),
{
    let mut r = String::new();
    let mut i: usize = 0;
    while i < s.len()
        invariant
            i <= s@.len(),
            r@ == join_names(views_of(s@.subrange(0, i as int))),
        decreases s@.len() - i,
    {
        let ghost pre = views_of(s@.subrange(0, i as int + 1));
        assert(pre.drop_last() =~= views_of(s@.subrange(0, i as int)));
        if i > 0 {
            r.append(", ");
        } else {
            assert(r@ =~= Seq::<char>::empty());
        }
        r.append(s[i].as_str());
        if i == 0 {
            assert(r@ =~= pre[0]);
        }
        i = i + 1;
    }
    assert(s@.subrange(0, i as int) =~= s@);
    r
}

/// An entry of the symbol map.
#[derive(Debug)]
struct TypeMapping {
    name: String,
    path: String,
}

/// The symbol map of a list of entries; a later entry for a name replaces
/// an earlier one.
spec fn mapping_map(s: Seq<TypeMapping>) -> Map<Seq<char>, Seq<char>>
    decreases s.len(),
{
    if s.len() == 0 {
        Map::empty()
    } else {
        mapping_map(s.drop_last()).insert(s.last().name@, s.last().path@)
    }
}

proof fn lemma_mapping_last(s: Seq<TypeMapping>, k: Seq<char>, i: int)
    requires
        -1 <= i < s.len(),
        i >= 0 ==> s[i].name@ == k,
        forall|j: int| i < j < s.len() ==> (#[trigger] s[j]).name@ != k,
    ensures
        i >= 0 ==> mapping_map(s).contains_key(k) && mapping_map(s)[k] == s[i].path@,
        i < 0 ==> !mapping_map(s).contains_key(k),
    decreases s.len(),
{
    if s.len() > 0 {
        let t = s.drop_last();
        if i == s.len() - 1 {
        } else {
            assert forall|j: int| i < j < t.len() implies (#[trigger] t[j]).name@ != k by {
                assert(t[j] == s[j]);
            }
            if i >= 0 {
                assert(t[i] == s[i]);
            }
            lemma_mapping_last(t, k, i);
            assert(s.last() == s[s.len() - 1]);
        }
    }
}

/// Resolves referenced type names to import lines, from a symbol map built
/// from the original file's type definitions and `use` declarations.
pub struct ImportAnalyzer {
    used_types: Vec<String>,
    type_mappings: Vec<TypeMapping>,
}

impl ImportAnalyzer {
    /// The symbol map: type name to the path it is imported from.
    pub closed spec fn mappings(&self) -> Map<Seq<char>, Seq<char>> {
        mapping_map(self.type_mappings@)
    }

    /// Names recorded as used by analysed functions, in order.
    pub closed spec fn used_names(&self) -> Seq<Seq<char>> {
        views_of(self.used_types@)
    }

    /// An analyzer with an empty symbol map.
    pub fn new() -> (r: Self)
        ensures
            r.mappings() == Map::<Seq<char>, Seq<char>>::empty(),
            r.used_names() == Seq::<Seq<char>>::empty(),
    {
        let r = ImportAnalyzer { used_types: Vec::new(), type_mappings: Vec::new() };
        assert(r.used_names() =~= Seq::<Seq<char>>::empty());
        r
    }

    /// Builds the symbol map from the original file's items: each struct,
    /// enum and type alias is imported from the types module, and each
    /// `use` declaration naming an uppercase item maps that item to its path.
    pub fn analyze_file(&mut self, items: &Vec<Item>)
        ensures
            final(self).mappings() == file_mappings(old(self).mappings(), items@, items@.len() as int),
            final(self).used_names() == old(self).used_names(),
    {
        let mut i: usize = 0;
        while i < items.len()
            invariant
                i <= items@.len(),
                self.mappings() == file_mappings(old(self).mappings(), items@, i as int),
                self.used_names() == old(self).used_names(),
            decreases items@.len() - i,
        {
            match &items[i] {
                Item::Use(text) => {
                    self.extract_use_mapping(text.as_str());
                },
                Item::Struct(t) => {
                    let mut p = String::from_str("super::types::");
                    p.append(t.name.as_str());
                    self.add_mapping(t.name.clone(), p);
                },
                Item::Enum(t) => {
                    let mut p = String::from_str("super::types::");
                    p.append(t.name.as_str());
                    self.add_mapping(t.name.clone(), p);
                },
                Item::TypeAlias(n) => {
                    let mut p = String::from_str("super::types::");
                    p.append(n.as_str());
                    self.add_mapping(n.clone(), p);
                },
                Item::Impl(_) => {},
                Item::Other => {},
            }
            i = i + 1;
        }
    }

    /// Takes in one `use` declaration, given as its token text.
    pub fn extract_use_mapping(&mut self, use_str: &str)
        ensures
            final(self).mappings() == match use_mapping(use_str@) {
                Some((n, p)) => old(self).mappings().insert(n, p),
                None => old(self).mappings(),
            },
            final(self).used_names() == old(self).used_names(),
    {
        let start = last_piece_start(use_str);
        let piece = slice_text(use_str, start, use_str.unicode_len());
        let stripped = strip_trailing_semicolons(piece.as_str());
        let name = trim(stripped.as_str());
        if name.unicode_len() > 0 && is_uppercase(name.as_str().get_char(0)) {
            let without = drop_use(use_str);
            let path_stripped = strip_trailing_semicolons(without.as_str());
            let path = trim(path_stripped.as_str());
            self.add_mapping(name, path);
        }
    }

    /// Adds `name`, imported from `path`, to the symbol map.
    pub fn add_mapping(&mut self, name: String, path: String)
        ensures
            final(self).mappings() == old(self).mappings().insert(name@, path@),
            final(self).used_names() == old(self).used_names(),
    {
        let ghost before = self.type_mappings@;
        self.type_mappings.push(TypeMapping { name, path });
        assert(self.type_mappings@.drop_last() =~= before);
    }

    /// The path `name` is imported from, if the symbol map holds it.
    pub fn lookup(&self, name: &str) -> (r: Option<String>)
        ensures
            match r {
                Some(p) => self.mappings().contains_key(name@) && self.mappings()[name@] == p@,
                None => !self.mappings().contains_key(name@),
            },
    {
        let ghost s = self.type_mappings@;
        let mut i: usize = self.type_mappings.len();
        while i > 0
            invariant
                s == self.type_mappings@,
                i <= s.len(),
                forall|j: int| i <= j < s.len() ==> (#[trigger] s[j]).name@ != name@,
            decreases i,
        {
            if same_text(self.type_mappings[i - 1].name.as_str(), name) {
                proof {
                    lemma_mapping_last(s, name@, i - 1);
                }
                return Some(self.type_mappings[i - 1].path.clone());
            }
            i = i - 1;
        }
        proof {
            lemma_mapping_last(s, name@, -1);
        }
        None
    }

    /// Whether `name` is a built-in scalar type.
    pub fn is_primitive(&self, name: &str) -> (r: bool)
        ensures
            r == is_primitive_name(name@),
    {
        primitive(name)
    }

    /// Whether `name` is one of the well-known standard types.
    pub fn is_std_type(&self, name: &str) -> (r: bool)
        ensures
            r == is_std_name(name@),
    {
        same_text(name, "String") || same_text(name, "Vec") || same_text(name, "Option")
            || same_text(name, "Result") || same_text(name, "Box") || same_text(name, "Arc")
            || same_text(name, "Rc") || is_container(name)
    }

    /// The import lines for a module that refers to `types_needed`:
    /// primitives and unresolved names give none, the standard collections
    /// share one grouped line that comes first, and the lines of mapped
    /// names follow by origin (parent-relative, root-relative, other), each
    /// group sorted and without repeats.
    pub fn generate_use_statements(&self, types_needed: &Vec<String>) -> (r: Vec<String>)
        ensures
            views_of(r@) == use_statements(self.mappings(), views_of(types_needed@)),
    {
        let ghost m = self.mappings();
        let ghost ts = views_of(types_needed@);
        let mut containers: Vec<String> = Vec::new();
        let mut parent: Vec<String> = Vec::new();
        let mut root: Vec<String> = Vec::new();
        let mut other: Vec<String> = Vec::new();
        let mut i: usize = 0;
        while i < types_needed.len()
            invariant
                m == self.mappings(),
                ts == views_of(types_needed@),
                i <= ts.len(),
                views_of(containers@) == buckets_upto(m, ts, i as int).containers,
                views_of(parent@) == buckets_upto(m, ts, i as int).parent,
                views_of(root@) == buckets_upto(m, ts, i as int).root,
                views_of(other@) == buckets_upto(m, ts, i as int).other,
            decreases ts.len() - i,
        {
            let t = types_needed[i].as_str();
            assert(ts[i as int] == t@);
            if self.is_primitive(t) {
            } else if self.is_std_type(t) {
                if is_container(t) {
                    add_sorted(&mut containers, String::from_str(t));
                }
            } else {
                match self.lookup(t) {
                    Some(p) => {
                        let mut line = String::from_str("use ");
                        line.append(p.as_str());
                        line.append(";");
                        if crate::text::starts_with(p.as_str(), "super::") {
                            add_sorted(&mut parent, line);
                        } else if crate::text::starts_with(p.as_str(), "crate::") {
                            add_sorted(&mut root, line);
                        } else {
                            add_sorted(&mut other, line);
                        }
                    },
                    None => {},
                }
            }
            i = i + 1;
        }
        let mut result: Vec<String> = Vec::new();
        if containers.len() > 0 {
            let mut line = String::from_str("use std::collections::{");
            let names = join(&containers);
            line.append(names.as_str());
            line.append("};");
            result.push(line);
        }
        let ghost head = views_of(result@);
        append_all(&mut result, &parent);
        append_all(&mut result, &root);
        append_all(&mut result, &other);
        result
    }

    /// The imports commonly needed by a split `impl` block one level below
    /// the types module.
    pub fn infer_common_imports(&self) -> (r: Vec<String>)
        ensures
            views_of(r@) == common_imports(1),
    {
        self.infer_imports_with_depth(1)
    }

    /// The imports commonly needed by a split `impl` block `depth` levels
    /// below the types module.
    pub fn infer_imports_with_depth(&self, depth: usize) -> (r: Vec<String>)
        ensures
            views_of(r@) == common_imports(depth as nat),
    {
        let mut prefix = String::new();
        let mut d: usize = 0;
        while d < depth
            invariant
                d <= depth,
                prefix@ == supers(d as nat),
            decreases depth - d,
        {
            prefix.append("super::");
            d = d + 1;
        }
        let mut r: Vec<String> = Vec::new();
        r.push(String::from_str("use std::collections::{HashMap, HashSet};"));
        let mut types_line = String::from_str("use ");
        types_line.append(prefix.as_str());
        types_line.append("types::*;");
        r.push(types_line);
        let mut eval_line = String::from_str("use ");
        eval_line.append(prefix.as_str());
        eval_line.append("PropertyPathEvaluator;");
        r.push(eval_line);
        assert(views_of(r@) =~= common_imports(depth as nat));
        r
    }

    /// Records the type names that analysed functions refer to.
    pub fn analyze_methods(&mut self, types_used: &Vec<String>)
        ensures
            final(self).used_names() == old(self).used_names() + views_of(types_used@),
            final(self).mappings() == old(self).mappings(),
    {
        let ghost start = self.used_names();
        let mut i: usize = 0;
        while i < types_used.len()
            invariant
                i <= types_used@.len(),
                self.mappings() == old(self).mappings(),
                start == old(self).used_names(),
                self.used_names() == start + views_of(types_used@.subrange(0, i as int)),
            decreases types_used@.len() - i,
        {
            let ghost before = self.used_types@;
            self.used_types.push(types_used[i].clone());
            assert(views_of(self.used_types@) =~= views_of(before).push(types_used@[i as int]@));
            assert(views_of(types_used@.subrange(0, i as int + 1)) =~= views_of(
                types_used@.subrange(0, i as int),
            ).push(types_used@[i as int]@));
            i = i + 1;
        }
        assert(types_used@.subrange(0, i as int) =~= types_used@);
    }
}

/// `super::` written `d` times.
pub open spec fn supers(d: nat) -> Seq<char>
    decreases d,
{
    if d == 0 {
        seq![]
    } else {
        supers((d - 1) as nat) + "super::"@
    }
}

/// The common imports of a split `impl` block `d` levels down.
pub open spec fn common_imports(d: nat) -> Seq<Seq<char>> {
    seq![
        "use std::collections::{HashMap, HashSet};"@,
        "use "@ + supers(d) + "types::*;"@,
        "use "@ + supers(d) + "PropertyPathEvaluator;"@,
    ]
}

/// Appends copies of `src` to `dst`.
fn append_all(dst: &mut Vec<String>, src: &Vec<String>)
    ensures
        views_of(final(dst)@) == views_of(old(dst)@) + views_of(src@),
{
    let ghost start = views_of(dst@);
    let mut i: usize = 0;
    while i < src.len()
        invariant
            i <= src@.len(),
            views_of(dst@) == start + views_of(src@.subrange(0, i as int)),
        decreases src@.len() - i,
    {
        let ghost before = dst@;
        dst.push(src[i].clone());
        assert(views_of(dst@) =~= views_of(before).push(src@[i as int]@));
        assert(views_of(src@.subrange(0, i as int + 1)) =~= views_of(src@.subrange(0, i as int)).push(
            src@[i as int]@,
        ));
        i = i + 1;
    }
    assert(src@.subrange(0, i as int) =~= src@);
}

/// Whether `name` is a built-in scalar type.
fn primitive(name: &str) -> (r: bool)
    ensures
        r == is_primitive_name(name@),
{
    same_text(name, "i8") || same_text(name, "i16") || same_text(name, "i32") || same_text(name, "i64")
        || same_text(name, "i128") || same_text(name, "isize") || same_text(name, "u8")
        || same_text(name, "u16") || same_text(name, "u32") || same_text(name, "u64")
        || same_text(name, "u128") || same_text(name, "usize") || same_text(name, "f32")
        || same_text(name, "f64") || same_text(name, "bool") || same_text(name, "char")
        || same_text(name, "str") || same_text(name, "()")
}

/// Whether `name` is one of the grouped standard collections.
pub(crate) fn is_container(name: &str) -> (r: bool)
    ensures
        r == is_container_name(name@),
{
    same_text(name, "HashMap") || same_text(name, "HashSet") || same_text(name, "VecDeque")
        || same_text(name, "BTreeMap") || same_text(name, "BTreeSet")
}


/// `types` without the primitive names, in order.
pub open spec fn without_primitives(types: Seq<Seq<char>>) -> Seq<Seq<char>>
    decreases types.len(),
{
    if types.len() == 0 {
        seq![]
    } else {
        let p = without_primitives(types.drop_last());
        if is_primitive_name(types.last()) {
            p
        } else {
            p.push(types.last())
        }
    }
}

proof fn lemma_buckets_prefix(m: Map<Seq<char>, Seq<char>>, s: Seq<Seq<char>>, x: Seq<char>, k: int)
    requires
        0 <= k <= s.len(),
    ensures
        buckets_upto(m, s.push(x), k) == buckets_upto(m, s, k),
    decreases k,
{
    if k > 0 {
        lemma_buckets_prefix(m, s, x, k - 1);
        assert(s.push(x)[k - 1] == s[k - 1]);
    }
}

proof fn lemma_buckets_skip_primitives(m: Map<Seq<char>, Seq<char>>, types: Seq<Seq<char>>)
    ensures
        buckets_upto(m, types, types.len() as int) == buckets_upto(
            m,
            without_primitives(types),
            without_primitives(types).len() as int,
        ),
    decreases types.len(),
{
    if types.len() > 0 {
        let t = types.drop_last();
        lemma_buckets_skip_primitives(m, t);
        lemma_buckets_prefix(m, t, types.last(), t.len() as int);
        assert(types == t.push(types.last()));
        let p = without_primitives(t);
        if !is_primitive_name(types.last()) {
            lemma_buckets_prefix(m, p, types.last(), p.len() as int);
            assert(p.push(types.last())[p.len() as int] == types.last());
        }
    }
}

proof fn lemma_less_irreflexive(a: Seq<char>)
    ensures
        !text_less(a, a),
    decreases a.len(),
{
    if a.len() > 0 {
        lemma_less_irreflexive(a.drop_first());
    }
}

proof fn lemma_less_transitive(a: Seq<char>, b: Seq<char>, c: Seq<char>)
    requires
        text_less(a, b),
        text_less(b, c),
    ensures
        text_less(a, c),
    decreases a.len(),
{
    if a.len() > 0 && b.len() > 0 && c.len() > 0 && a[0] == b[0] && b[0] == c[0] {
        lemma_less_transitive(a.drop_first(), b.drop_first(), c.drop_first());
    }
}

proof fn lemma_less_total(a: Seq<char>, b: Seq<char>)
    requires
        a != b,
    ensures
        text_less(a, b) || text_less(b, a),
    decreases a.len(),
{
    if a.len() == 0 {
        assert(b.len() > 0) by {
            if b.len() == 0 {
                assert(a =~= b);
            }
        }
    } else if b.len() > 0 && a[0] == b[0] {
        assert(a.drop_first() != b.drop_first()) by {
            if a.drop_first() == b.drop_first() {
                assert(a =~= seq![a[0]] + a.drop_first());
                assert(b =~= seq![b[0]] + b.drop_first());
            }
        }
        lemma_less_total(a.drop_first(), b.drop_first());
    } else if b.len() > 0 {
        assert(a[0] as int != b[0] as int);
    }
}

/// Whether `s` is in strictly increasing order.
pub open spec fn strictly_sorted(s: Seq<Seq<char>>) -> bool {
    forall|i: int, j: int| 0 <= i < j < s.len() ==> text_less(#[trigger] s[i], #[trigger] s[j])
}

proof fn lemma_sorted_no_duplicates(s: Seq<Seq<char>>)
    requires
        strictly_sorted(s),
    ensures
        s.no_duplicates(),
{
    assert forall|a: int, b: int| 0 <= a < s.len() && 0 <= b < s.len() && a != b implies s[a] != s[b] by {
        if a < b {
            lemma_less_irreflexive(s[a]);
        } else {
            lemma_less_irreflexive(s[b]);
        }
    }
}

proof fn lemma_primitive_not_std(t: Seq<char>)
    requires
        is_primitive_name(t),
    ensures
        !is_std_name(t),
{
    reveal_strlit("i8");
    reveal_strlit("i16");
    reveal_strlit("i32");
    reveal_strlit("i64");
    reveal_strlit("i128");
    reveal_strlit("isize");
    reveal_strlit("u8");
    reveal_strlit("u16");
    reveal_strlit("u32");
    reveal_strlit("u64");
    reveal_strlit("u128");
    reveal_strlit("usize");
    reveal_strlit("f32");
    reveal_strlit("f64");
    reveal_strlit("bool");
    reveal_strlit("char");
    reveal_strlit("str");
    reveal_strlit("()");
    reveal_strlit("String");
    reveal_strlit("Vec");
    reveal_strlit("Option");
    reveal_strlit("Result");
    reveal_strlit("Box");
    reveal_strlit("Arc");
    reveal_strlit("Rc");
    reveal_strlit("HashMap");
    reveal_strlit("HashSet");
    reveal_strlit("VecDeque");
    reveal_strlit("BTreeMap");
    reveal_strlit("BTreeSet");
    if is_std_name(t) {
        assert(t[0] == 'i' || t[0] == 'u' || t[0] == 'f' || t[0] == 'b' || t[0] == 'c' || t[0] == 's'
            || t[0] == '(');
    }
}

proof fn lemma_insert_sorted_members(s: Seq<Seq<char>>, x: Seq<char>)
    requires
        strictly_sorted(s),
    ensures
        strictly_sorted(insert_sorted(s, x)),
        insert_sorted(s, x).no_duplicates(),
        forall|y: Seq<char>| #[trigger] insert_sorted(s, x).contains(y) <==> (s.contains(y) || y == x),
    decreases s.len(),
{
    let r = insert_sorted(s, x);
    if s.len() == 0 {
        assert(r =~= seq![x]);
        assert forall|y: Seq<char>| #[trigger] r.contains(y) <==> (s.contains(y) || y == x) by {
            if r.contains(y) {
                assert(r[0] == y);
            }
            if y == x {
                assert(r[0] == x);
            }
        }
    } else if s[0] == x {
        assert forall|y: Seq<char>| #[trigger] r.contains(y) <==> (s.contains(y) || y == x) by {
            if y == x {
                assert(s[0] == x);
            }
        }
    } else if text_less(x, s[0]) {
        assert forall|y: Seq<char>| #[trigger] r.contains(y) <==> (s.contains(y) || y == x) by {
            if r.contains(y) {
                let w = choose|w: int| 0 <= w < r.len() && r[w] == y;
                if w > 0 {
                    assert(s[w - 1] == y);
                }
            }
            if s.contains(y) {
                let w = choose|w: int| 0 <= w < s.len() && s[w] == y;
                assert(r[w + 1] == y);
            }
            if y == x {
                assert(r[0] == x);
            }
        }
        assert forall|a: int, b: int| 0 <= a < b < r.len() implies text_less(#[trigger] r[a], #[trigger] r[b]) by {
            if a == 0 {
                assert(r[b] == s[b - 1]);
                if b > 1 {
                    lemma_less_transitive(x, s[0], s[b - 1]);
                }
            } else {
                assert(r[a] == s[a - 1] && r[b] == s[b - 1]);
            }
        }
    } else {
        let t = s.drop_first();
        assert(strictly_sorted(t)) by {
            assert forall|a: int, b: int| 0 <= a < b < t.len() implies text_less(#[trigger] t[a], #[trigger] t[b]) by {
                assert(t[a] == s[a + 1] && t[b] == s[b + 1]);
            }
        }
        lemma_insert_sorted_members(t, x);
        lemma_less_total(x, s[0]);
        let u = insert_sorted(t, x);
        assert(r == seq![s[0]] + u);
        assert forall|y: Seq<char>| #[trigger] r.contains(y) <==> (s.contains(y) || y == x) by {
            if r.contains(y) {
                let w = choose|w: int| 0 <= w < r.len() && r[w] == y;
                if w > 0 {
                    assert(u[w - 1] == y);
                    assert(u.contains(y));
                    if t.contains(y) {
                        let v = choose|v: int| 0 <= v < t.len() && t[v] == y;
                        assert(s[v + 1] == y);
                    }
                } else {
                    assert(s[0] == y);
                }
            }
            if s.contains(y) {
                let w = choose|w: int| 0 <= w < s.len() && s[w] == y;
                if w > 0 {
                    assert(t[w - 1] == y);
                    assert(t.contains(y));
                    assert(u.contains(y));
                    let v = choose|v: int| 0 <= v < u.len() && u[v] == y;
                    assert(r[v + 1] == y);
                } else {
                    assert(r[0] == y);
                }
            }
            if y == x {
                assert(u.contains(x));
                let v = choose|v: int| 0 <= v < u.len() && u[v] == x;
                assert(r[v + 1] == x);
            }
        }
        assert forall|a: int, b: int| 0 <= a < b < r.len() implies text_less(#[trigger] r[a], #[trigger] r[b]) by {
            if a > 0 {
                assert(r[a] == u[a - 1] && r[b] == u[b - 1]);
            } else {
                assert(r[b] == u[b - 1]);
                assert(u.contains(u[b - 1]));
                if t.contains(u[b - 1]) {
                    let v = choose|v: int| 0 <= v < t.len() && t[v] == u[b - 1];
                    assert(s[v + 1] == u[b - 1]);
                }
            }
        }
    }
    lemma_sorted_no_duplicates(r);
}

/// Whether `line` is the import of a referenced, mapped name that is not a
/// standard type.
pub open spec fn is_mapped_line(m: Map<Seq<char>, Seq<char>>, types: Seq<Seq<char>>, line: Seq<char>) -> bool {
    exists|t: Seq<char>|
        #![trigger m[t]]
        types.contains(t) && !is_primitive_name(t) && !is_std_name(t) && m.contains_key(t) && line
            == use_line(m[t])
}

proof fn lemma_buckets_members(m: Map<Seq<char>, Seq<char>>, types: Seq<Seq<char>>, k: int)
    requires
        0 <= k <= types.len(),
    ensures
        buckets_upto(m, types, k).containers.no_duplicates(),
        strictly_sorted(buckets_upto(m, types, k).containers),
        strictly_sorted(buckets_upto(m, types, k).parent),
        strictly_sorted(buckets_upto(m, types, k).root),
        strictly_sorted(buckets_upto(m, types, k).other),
        forall|y: Seq<char>| #[trigger]
            buckets_upto(m, types, k).containers.contains(y) <==> (types.subrange(0, k).contains(y)
                && is_container_name(y)),
        forall|j: int|
            0 <= j < buckets_upto(m, types, k).parent.len() ==> is_mapped_line(
                m,
                types,
                #[trigger] buckets_upto(m, types, k).parent[j],
            ),
        forall|j: int|
            0 <= j < buckets_upto(m, types, k).root.len() ==> is_mapped_line(
                m,
                types,
                #[trigger] buckets_upto(m, types, k).root[j],
            ),
        forall|j: int|
            0 <= j < buckets_upto(m, types, k).other.len() ==> is_mapped_line(
                m,
                types,
                #[trigger] buckets_upto(m, types, k).other[j],
            ),
        buckets_upto(m, types, k).parent.no_duplicates(),
        buckets_upto(m, types, k).root.no_duplicates(),
        buckets_upto(m, types, k).other.no_duplicates(),
    decreases k,
{
    if k > 0 {
        lemma_buckets_members(m, types, k - 1);
        let b = buckets_upto(m, types, k - 1);
        let t = types[k - 1];
        assert(types.subrange(0, k) =~= types.subrange(0, k - 1).push(t));
        assert forall|y: Seq<char>| types.subrange(0, k).contains(y) <==> (types.subrange(0, k - 1).contains(y) || y == t) by {
            lemma_seq_contains_after_push(types.subrange(0, k - 1), t, y);
        }
        assert(types.contains(t)) by {
            assert(types[k - 1] == t);
        }
        if is_primitive_name(t) {
            lemma_primitive_not_std(t);
        }
        lemma_insert_sorted_members(b.containers, t);
        lemma_insert_sorted_members(b.parent, t);
        lemma_insert_sorted_members(b.root, t);
        lemma_insert_sorted_members(b.other, t);
        if !is_primitive_name(t) && !is_std_name(t) && m.contains_key(t) {
            let line = use_line(m[t]);
            assert(is_mapped_line(m, types, line));
            lemma_insert_sorted_members(b.parent, line);
            lemma_insert_sorted_members(b.root, line);
            lemma_insert_sorted_members(b.other, line);
            let nb = buckets_upto(m, types, k);
            assert forall|j: int| 0 <= j < nb.parent.len() implies is_mapped_line(m, types, #[trigger] nb.parent[j]) by {
                assert(nb.parent.contains(nb.parent[j]));
                if b.parent.contains(nb.parent[j]) {
                    let w = choose|w: int| 0 <= w < b.parent.len() && b.parent[w] == nb.parent[j];
                }
            }
            assert forall|j: int| 0 <= j < nb.root.len() implies is_mapped_line(m, types, #[trigger] nb.root[j]) by {
                assert(nb.root.contains(nb.root[j]));
                if b.root.contains(nb.root[j]) {
                    let w = choose|w: int| 0 <= w < b.root.len() && b.root[w] == nb.root[j];
                }
            }
            assert forall|j: int| 0 <= j < nb.other.len() implies is_mapped_line(m, types, #[trigger] nb.other[j]) by {
                assert(nb.other.contains(nb.other[j]));
                if b.other.contains(nb.other[j]) {
                    let w = choose|w: int| 0 <= w < b.other.len() && b.other[w] == nb.other[j];
                }
            }
        }
    } else {
        assert(types.subrange(0, 0) =~= Seq::<Seq<char>>::empty());
    }
}

/// Primitive names never produce an import: the lines are those that the
/// same references give with every primitive name left out.
pub proof fn lemma_primitives_not_imported(m: Map<Seq<char>, Seq<char>>, types: Seq<Seq<char>>)
    ensures
        use_statements(m, types) == use_statements(m, without_primitives(types)),
{
    lemma_buckets_skip_primitives(m, types);
}

/// Referenced container types share exactly one grouped line, the first,
/// which lists each of them once; every other line imports a referenced
/// name of the symbol map that is no standard type.
pub proof fn lemma_one_container_line(m: Map<Seq<char>, Seq<char>>, types: Seq<Seq<char>>)
    ensures
        ({
            let r = use_statements(m, types);
            let c = buckets_upto(m, types, types.len() as int).containers;
            &&& c.no_duplicates()
            &&& forall|y: Seq<char>| #[trigger] c.contains(y) <==> (types.contains(y) && is_container_name(y))
            &&& c.len() > 0 ==> r[0] == container_line(c)
            &&& forall|j: int|
                (if c.len() > 0 {
                    1int
                } else {
                    0int
                }) <= j < r.len() ==> is_mapped_line(m, types, #[trigger] r[j])
        }),
{
    let n = types.len() as int;
    lemma_buckets_members(m, types, n);
    assert(types.subrange(0, n) =~= types);
    let b = buckets_upto(m, types, n);
    let r = use_statements(m, types);
    let h: int = if b.containers.len() > 0 { 1 } else { 0 };
    assert forall|j: int| h <= j < r.len() implies is_mapped_line(m, types, #[trigger] r[j]) by {
        let i = j - h;
        if i < b.parent.len() {
            assert(r[j] == b.parent[i]);
        } else if i < b.parent.len() + b.root.len() {
            assert(r[j] == b.root[i - b.parent.len()]);
        } else {
            assert(r[j] == b.other[i - b.parent.len() - b.root.len()]);
        }
    }
}

} // verus!
