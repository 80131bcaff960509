//! Splitting an oversized `impl` block: each function becomes a record of
//! its name, the names it calls and an estimated size; the records are
//! clustered by direct call relation and packed into size-bounded groups.

use vstd::prelude::*;
use vstd::string::*;
use crate::decl::{FnDecl, ImplDecl};
use vstd::seq_lib::*;
use crate::text::{starts_with, concat, has_prefix};

verus! {

/// Factor from lines of a function's compact token form to its estimated
/// formatted length; a coarse approximation of what a formatter writes.
pub const LINES_PER_TOKEN_LINE: usize = 15;

/// The estimated size of a function: its compact line count (at least
/// one) scaled by the fixed factor.
pub open spec fn estimated_lines(token_lines: nat) -> nat {
    ((if token_lines == 0 { 1 } else { token_lines }) * LINES_PER_TOKEN_LINE) as nat
}

/// Whether a function's size estimate fits in a machine word.
pub open spec fn fn_fits(f: FnDecl) -> bool {
    f.token_lines <= usize::MAX / LINES_PER_TOKEN_LINE
}

/// Mathematical form of a [`MethodInfo`].
pub struct MethodModel {
    pub name: Seq<char>,
    pub calls: Seq<Seq<char>>,
    pub line_count: nat,
    pub position: nat,
}

/// A function of an `impl` block, ready for clustering.
#[derive(Debug)]
pub struct MethodInfo {
    /// The function's name.
    pub name: String,
    /// Names its body calls.
    pub calls_methods: Vec<String>,
    /// Estimated formatted size in lines.
    pub line_count: usize,
    /// Its index among the functions of its `impl` block.
    pub position: usize,
}

impl View for MethodInfo {
    type V = MethodModel;

    open spec fn view(&self) -> MethodModel {
        MethodModel {
            name: self.name@,
            calls: name_views(self.calls_methods@),
            line_count: self.line_count as nat,
            position: self.position as nat,
        }
    }
}

/// The characters of each name in `v`.
pub open spec fn name_views(v: Seq<String>) -> Seq<Seq<char>> {
    v.map_values(|s: String| s@)
}

/// Copies a list of names.
pub fn copy_names(v: &Vec<String>) -> (r: Vec<String>)
    ensures
        name_views(r@) == name_views(v@),
{
    let mut r: Vec<String> = Vec::new();
    let mut i: usize = 0;
    while i < v.len()
        invariant
            i <= v.len(),
            r@.len() == i,
            forall|k: int| 0 <= k < i ==> r@[k]@ == v@[k]@,
        decreases v.len() - i,
    {
        r.push(v[i].clone());
        i = i + 1;
    }
    assert(name_views(r@) =~= name_views(v@));
    r
}

/// Whether `names` holds `n`.
pub fn contains_name(names: &Vec<String>, n: &String) -> (r: bool)
    ensures
        r == name_views(names@).contains(n@),
{
    let mut i: usize = 0;
    while i < names.len()
        invariant
            i <= names.len(),
            forall|k: int| 0 <= k < i ==> names@[k]@ != n@,
        decreases names.len() - i,
    {
        if names[i] == *n {
            assert(name_views(names@)[i as int] == n@);
            return true;
        }
        i = i + 1;
    }
    assert(!name_views(names@).contains(n@)) by {
        if name_views(names@).contains(n@) {
            let k = choose|k: int|
                0 <= k < names@.len() && #[trigger] name_views(names@)[k] == n@;
            assert(names@[k]@ == n@);
        }
    }
    false
}

impl MethodInfo {
    /// An equal copy of this record.
    pub fn duplicate(&self) -> (r: MethodInfo)
        ensures
            r@ == self@,
    {
        MethodInfo {
            name: self.name.clone(),
            calls_methods: copy_names(&self.calls_methods),
            line_count: self.line_count,
            position: self.position,
        }
    }
}

/// Whether function `i` of `ms` calls function `j` by name.
pub open spec fn calls(ms: Seq<MethodModel>, i: int, j: int) -> bool {
    ms[i].calls.contains(ms[j].name)
}

/// Whether `i` calls `j` or `j` calls `i`.
pub open spec fn related(ms: Seq<MethodModel>, i: int, j: int) -> bool {
    calls(ms, i, j) || calls(ms, j, i)
}

/// The functions among the first `m` that the cluster seeded at `i`
/// absorbs, given the functions already `assigned` to earlier clusters:
/// those that the seed calls or that call the seed.
pub open spec fn partners(ms: Seq<MethodModel>, assigned: Seq<bool>, i: int, m: int) -> Seq<usize>
    decreases m,
{
    if m <= 0 {
        seq![]
    } else {
        let prev = partners(ms, assigned, i, m - 1);
        let j = m - 1;
        if j != i && !assigned[j] && related(ms, i, j) {
            prev.push(j as usize)
        } else {
            prev
        }
    }
}

/// The cluster seeded at `i`: the seed, then its partners in declaration
/// order. The relation is checked against the seed only, not against the
/// other members.
pub open spec fn cluster_at(ms: Seq<MethodModel>, assigned: Seq<bool>, i: int) -> Seq<usize> {
    seq![i as usize] + partners(ms, assigned, i, ms.len() as int)
}

/// `assigned` with the members of `c` marked.
pub open spec fn mark(assigned: Seq<bool>, c: Seq<usize>) -> Seq<bool> {
    Seq::new(assigned.len(), |x: int| assigned[x] || c.contains(x as usize))
}

/// Clusters and assignment after the seeds `0..k` have been considered.
pub open spec fn clusters_upto(ms: Seq<MethodModel>, k: int) -> (Seq<Seq<usize>>, Seq<bool>)
    decreases k,
{
    if k <= 0 {
        (seq![], Seq::new(ms.len(), |x: int| false))
    } else {
        let prev = clusters_upto(ms, k - 1);
        if prev.1[k - 1] {
            prev
        } else {
            let c = cluster_at(ms, prev.1, k - 1);
            (prev.0.push(c), mark(prev.1, c))
        }
    }
}

/// The clusters of a block's functions, as indices into `ms`: each not yet
/// assigned function, in declaration order, seeds a cluster.
pub open spec fn clusters(ms: Seq<MethodModel>) -> Seq<Seq<usize>> {
    clusters_upto(ms, ms.len() as int).0
}

/// Views of a list of index lists.
pub open spec fn index_views(v: Seq<Vec<usize>>) -> Seq<Seq<usize>> {
    v.map_values(|c: Vec<usize>| c@)
}

/// `g` is the call graph of `ms` as a matrix: `g[i][j]` when `i` calls `j`.
pub open spec fn is_call_matrix(ms: Seq<MethodModel>, g: Seq<Vec<bool>>) -> bool {
    &&& g.len() == ms.len()
    &&& forall|i: int| 0 <= i < g.len() ==> (#[trigger] g[i])@.len() == ms.len()
    &&& forall|i: int, j: int|
        0 <= i < ms.len() && 0 <= j < ms.len() ==> (#[trigger] g[i]@[j]) == calls(ms, i, j)
}

proof fn lemma_partners_below(ms: Seq<MethodModel>, assigned: Seq<bool>, i: int, m: int)
    requires
        0 <= m <= usize::MAX,
    ensures
        forall|k: int|
            0 <= k < partners(ms, assigned, i, m).len() ==> 0 <= #[trigger] partners(
                ms,
                assigned,
                i,
                m,
            )[k] < m && partners(ms, assigned, i, m)[k] != i,
    decreases m,
{
    if m > 0 {
        lemma_partners_below(ms, assigned, i, m - 1);
        let prev = partners(ms, assigned, i, m - 1);
        let j = m - 1;
        if j != i && !assigned[j] && related(ms, i, j) {
            assert(partners(ms, assigned, i, m) == prev.push(j as usize));
            assert forall|k: int| 0 <= k < prev.len() + 1 implies 0 <= #[trigger] prev.push(
                j as usize,
            )[k] < m && prev.push(j as usize)[k] != i by {
                if k < prev.len() {
                    assert(prev.push(j as usize)[k] == prev[k]);
                }
            }
        }
    }
}

proof fn lemma_mark_push(a: Seq<bool>, c: Seq<usize>, j: usize)
    requires
        j < a.len(),
        a.len() <= usize::MAX,
    ensures
        mark(a, c.push(j)) == mark(a, c).update(j as int, true),
{
    assert forall|x: int| 0 <= x < a.len() implies #[trigger] mark(a, c.push(j))[x] == mark(
        a,
        c,
    ).update(j as int, true)[x] by {
        if x == j {
            assert(c.push(j)[c.len() as int] == j);
        } else {
            if c.push(j).contains(x as usize) {
                let w = choose|w: int| 0 <= w < c.len() + 1 && c.push(j)[w] == x as usize;
                assert(c[w] == x as usize);
            }
            if c.contains(x as usize) {
                let w = choose|w: int| 0 <= w < c.len() && c[w] == x as usize;
                assert(c.push(j)[w] == x as usize);
            }
        }
    }
    assert(mark(a, c.push(j)) =~= mark(a, c).update(j as int, true));
}


/// Sum of the estimated sizes of the functions at indices `g`.
pub open spec fn sum_lines(ms: Seq<MethodModel>, g: Seq<usize>) -> nat
    decreases g.len(),
{
    if g.len() == 0 {
        0
    } else {
        sum_lines(ms, g.drop_last()) + ms[g.last() as int].line_count
    }
}

/// Sequential packing of cluster `c` after its first `k` members: closed
/// groups, the open group and the open group's size. A member closes the
/// open group when adding it would exceed `max` and the open group is not
/// empty.
pub open spec fn pack_upto(ms: Seq<MethodModel>, c: Seq<usize>, max: nat, k: int) -> (
    Seq<Seq<usize>>,
    Seq<usize>,
    nat,
)
    decreases k,
{
    if k <= 0 {
        (seq![], seq![], 0)
    } else {
        let prev = pack_upto(ms, c, max, k - 1);
        let x = c[k - 1];
        let l = ms[x as int].line_count;
        if prev.2 + l > max && prev.1.len() > 0 {
            (prev.0.push(prev.1), seq![x], l)
        } else {
            (prev.0, prev.1.push(x), prev.2 + l)
        }
    }
}

/// The groups that cluster `c` is packed into.
pub open spec fn pack(ms: Seq<MethodModel>, c: Seq<usize>, max: nat) -> Seq<Seq<usize>> {
    let st = pack_upto(ms, c, max, c.len() as int);
    if st.1.len() > 0 {
        st.0.push(st.1)
    } else {
        st.0
    }
}

/// The groups of the first `k` clusters of `cs`, in order.
pub open spec fn pack_all(ms: Seq<MethodModel>, cs: Seq<Seq<usize>>, max: nat, k: int) -> Seq<
    Seq<usize>,
>
    decreases k,
{
    if k <= 0 {
        seq![]
    } else {
        pack_all(ms, cs, max, k - 1) + pack(ms, cs[k - 1], max)
    }
}

/// The groups, as indices into `ms`, that a block's functions are split
/// into under a budget of `max` lines per group.
pub open spec fn grouping(ms: Seq<MethodModel>, max: nat) -> Seq<Seq<usize>> {
    let cs = clusters(ms);
    pack_all(ms, cs, max, cs.len() as int)
}

/// The records at indices `g`.
pub open spec fn index_models(ms: Seq<MethodModel>, g: Seq<usize>) -> Seq<MethodModel> {
    g.map_values(|x: usize| ms[x as int])
}

/// Sum of the estimated sizes of `s`.
pub open spec fn model_lines(s: Seq<MethodModel>) -> nat
    decreases s.len(),
{
    if s.len() == 0 {
        0
    } else {
        model_lines(s.drop_last()) + s.last().line_count
    }
}

/// The name suggested for a group whose records are `s`, from its first
/// function's name.
pub open spec fn suggested_name(s: Seq<MethodModel>) -> Seq<char> {
    if s.len() == 0 {
        "methods"@
    } else {
        let f = s[0].name;
        if has_prefix(f, "test_"@) {
            "test_methods"@
        } else if has_prefix(f, "check_"@) {
            "check_methods"@
        } else if has_prefix(f, "get_"@) || has_prefix(f, "set_"@) {
            "accessors"@
        } else if has_prefix(f, "handle_"@) || has_prefix(f, "process_"@) {
            "handlers"@
        } else {
            f + "_group"@
        }
    }
}

/// A group of related functions, split out of one `impl` block.
#[derive(Debug)]
pub struct MethodGroup {
    /// Its functions, in the order they were packed.
    pub methods: Vec<MethodInfo>,
}

impl View for MethodGroup {
    type V = Seq<MethodModel>;

    open spec fn view(&self) -> Seq<MethodModel> {
        self.methods@.map_values(|m: MethodInfo| m@)
    }
}

/// Sum of estimated sizes of `v`, computed.
fn sum_of(v: &Vec<MethodInfo>) -> (r: usize)
    requires
        model_lines(v@.map_values(|m: MethodInfo| m@)) <= usize::MAX,
    ensures
        r == model_lines(v@.map_values(|m: MethodInfo| m@)),
{
    let ghost s = v@.map_values(|m: MethodInfo| m@);
    let mut total: usize = 0;
    let mut i: usize = 0;
    while i < v.len()
        invariant
            s == v@.map_values(|m: MethodInfo| m@),
            model_lines(s) <= usize::MAX,
            i <= v@.len(),
            total == model_lines(s.subrange(0, i as int)),
        decreases v@.len() - i,
    {
        assert(s.subrange(0, i as int + 1).drop_last() =~= s.subrange(0, i as int));
        proof {
            lemma_model_lines_prefix(s, i as int + 1);
            lemma_model_lines_mono(s, i as int + 1, s.len() as int);
            assert(s.subrange(0, s.len() as int) =~= s);
        }
        total = total + v[i].line_count;
        i = i + 1;
    }
    assert(s.subrange(0, i as int) =~= s);
    total
}

/// Whether the sum of estimated sizes of `v` exceeds `limit`.
fn sum_exceeds(v: &Vec<MethodInfo>, limit: usize) -> (r: bool)
    ensures
        r == (model_lines(v@.map_values(|m: MethodInfo| m@)) > limit),
{
    let ghost s = v@.map_values(|m: MethodInfo| m@);
    let mut total: usize = 0;
    let mut i: usize = 0;
    while i < v.len()
        invariant
            s == v@.map_values(|m: MethodInfo| m@),
            i <= v@.len(),
            total == model_lines(s.subrange(0, i as int)),
            total <= limit,
        decreases v@.len() - i,
    {
        assert(s.subrange(0, i as int + 1).drop_last() =~= s.subrange(0, i as int));
        let l = v[i].line_count;
        if l > limit - total {
            proof {
                lemma_model_lines_prefix(s, i as int + 1);
                lemma_model_lines_mono(s, i as int + 1, s.len() as int);
                assert(s.subrange(0, s.len() as int) =~= s);
            }
            return true;
        }
        total = total + l;
        i = i + 1;
    }
    assert(s.subrange(0, i as int) =~= s);
    false
}

proof fn lemma_model_lines_prefix(s: Seq<MethodModel>, k: int)
    requires
        0 < k <= s.len(),
    ensures
        model_lines(s.subrange(0, k)) == model_lines(s.subrange(0, k - 1)) + s[k - 1].line_count,
{
    assert(s.subrange(0, k).drop_last() =~= s.subrange(0, k - 1));
}

proof fn lemma_model_lines_mono(s: Seq<MethodModel>, a: int, b: int)
    requires
        0 <= a <= b <= s.len(),
    ensures
        model_lines(s.subrange(0, a)) <= model_lines(s.subrange(0, b)),
    decreases b - a,
{
    if a < b {
        lemma_model_lines_mono(s, a, b - 1);
        lemma_model_lines_prefix(s, b);
    }
}

impl MethodGroup {
    /// An equal copy of this group.
    pub fn duplicate(&self) -> (r: MethodGroup)
        ensures
            r@ == self@,
    {
        let mut methods: Vec<MethodInfo> = Vec::new();
        let mut i: usize = 0;
        while i < self.methods.len()
            invariant
                i <= self.methods@.len(),
                methods@.map_values(|m: MethodInfo| m@) == self@.subrange(0, i as int),
            decreases self.methods@.len() - i,
        {
            let m = self.methods[i].duplicate();
            let ghost before = methods@;
            methods.push(m);
            assert(methods@.map_values(|m: MethodInfo| m@) =~= before.map_values(|m: MethodInfo| m@).push(m@));
            assert(self@.subrange(0, i as int + 1) =~= self@.subrange(0, i as int).push(self@[i as int]));
            i = i + 1;
        }
        assert(self@.subrange(0, i as int) =~= self@);
        MethodGroup { methods }
    }

    fn new() -> (r: Self)
        ensures
            r@ == Seq::<MethodModel>::empty(),
    {
        let r = MethodGroup { methods: Vec::new() };
        assert(r@ =~= Seq::<MethodModel>::empty());
        r
    }

    /// Total estimated size of the group.
    pub fn total_lines(&self) -> (r: usize)
        requires
            model_lines(self@) <= usize::MAX,
        ensures
            r == model_lines(self@),
    {
        sum_of(&self.methods)
    }

    /// A module name for the group, from a naming rule on its first
    /// function: `test_`/`check_` prefixes give `test_methods`/
    /// `check_methods`, `get_`/`set_` give `accessors`, `handle_`/`process_`
    /// give `handlers`, any other name `<name>_group`.
    pub fn suggest_name(&self) -> (r: String)
        ensures
            r@ == suggested_name(self@),
    {
        if self.methods.len() == 0 {
            return String::from_str("methods");
        }
        let first = self.methods[0].name.as_str();
        if starts_with(first, "test_") {
            String::from_str("test_methods")
        } else if starts_with(first, "check_") {
            String::from_str("check_methods")
        } else if starts_with(first, "get_") || starts_with(first, "set_") {
            String::from_str("accessors")
        } else if starts_with(first, "handle_") || starts_with(first, "process_") {
            String::from_str("handlers")
        } else {
            concat(first, "_group")
        }
    }
}


/// Every index in `gs` is below `n`.
pub open spec fn all_below(gs: Seq<Seq<usize>>, n: nat) -> bool {
    forall|a: int, b: int| 0 <= a < gs.len() && 0 <= b < gs[a].len() ==> #[trigger] gs[a][b] < n
}

proof fn lemma_partners_facts(ms: Seq<MethodModel>, assigned: Seq<bool>, i: int, m: int)
    requires
        0 <= m <= assigned.len(),
        assigned.len() <= usize::MAX,
    ensures
        partners(ms, assigned, i, m).no_duplicates(),
        forall|k: int|
            0 <= k < partners(ms, assigned, i, m).len() ==> {
                let e = #[trigger] partners(ms, assigned, i, m)[k];
                &&& 0 <= e < m
                &&& e != i
                &&& !assigned[e as int]
            },
    decreases m,
{
    if m > 0 {
        lemma_partners_facts(ms, assigned, i, m - 1);
        let prev = partners(ms, assigned, i, m - 1);
        let j = m - 1;
        if j != i && !assigned[j] && related(ms, i, j) {
            let p = prev.push(j as usize);
            assert(partners(ms, assigned, i, m) == p);
            assert forall|k: int| 0 <= k < p.len() implies {
                let e = #[trigger] p[k];
                &&& 0 <= e < m
                &&& e != i
                &&& !assigned[e as int]
            } by {
                if k < prev.len() {
                    assert(p[k] == prev[k]);
                }
            }
            assert forall|a: int, b: int| 0 <= a < p.len() && 0 <= b < p.len() && a != b implies p[a]
                != p[b] by {
                if a < prev.len() && b < prev.len() {
                    assert(p[a] == prev[a] && p[b] == prev[b]);
                } else if a < prev.len() {
                    assert(p[a] == prev[a]);
                } else if b < prev.len() {
                    assert(p[b] == prev[b]);
                }
            }
        }
    }
}

/// What holds of the clusters after the seeds `0..k`: indices are in
/// range, no index is in two places, the assigned indices are exactly
/// those in some cluster, and every seed considered so far is assigned.
proof fn lemma_clusters_partition(ms: Seq<MethodModel>, k: int)
    requires
        0 <= k <= ms.len(),
        ms.len() <= usize::MAX,
    ensures
        clusters_upto(ms, k).1.len() == ms.len(),
        all_below(clusters_upto(ms, k).0, ms.len()),
        clusters_upto(ms, k).0.flatten().no_duplicates(),
        forall|x: int|
            0 <= x < ms.len() ==> (#[trigger] clusters_upto(ms, k).1[x] <==> clusters_upto(
                ms,
                k,
            ).0.flatten().contains(x as usize)),
        forall|x: usize| #[trigger]
            clusters_upto(ms, k).0.flatten().contains(x) ==> (x as int) < ms.len(),
        forall|x: int| 0 <= x < k ==> #[trigger] clusters_upto(ms, k).1[x],
    decreases k,
{
    let n = ms.len();
    if k == 0 {
        let st = clusters_upto(ms, 0);
        assert(st.0.flatten() =~= Seq::<usize>::empty());
    } else {
        lemma_clusters_partition(ms, k - 1);
        let prev = clusters_upto(ms, k - 1);
        let (cs, a) = prev;
        if !a[k - 1] {
            let i = k - 1;
            let p = partners(ms, a, i, n as int);
            lemma_partners_facts(ms, a, i, n as int);
            let c = cluster_at(ms, a, i);
            assert(c == seq![i as usize] + p);
            assert forall|t: int| 0 <= t < c.len() implies {
                let e = #[trigger] c[t];
                &&& 0 <= e < n
                &&& !a[e as int]
            } by {
                if t > 0 {
                    assert(c[t] == p[t - 1]);
                }
            }
            assert(c.no_duplicates()) by {
                assert forall|x: int, y: int| 0 <= x < c.len() && 0 <= y < c.len() && x != y implies c[x]
                    != c[y] by {
                    if x > 0 && y > 0 {
                        assert(c[x] == p[x - 1] && c[y] == p[y - 1]);
                    } else if x > 0 {
                        assert(c[x] == p[x - 1]);
                    } else if y > 0 {
                        assert(c[y] == p[y - 1]);
                    }
                }
            }
            let f = cs.flatten();
            cs.lemma_flatten_push(c);
            assert(cs.push(c).flatten() == f + c);
            assert forall|x: int, y: int| 0 <= x < f.len() && 0 <= y < c.len() implies f[x]
                != c[y] by {
                assert(f.contains(f[x]));
                assert(a[f[x] as int]);
            }
            lemma_no_dup_in_concat(f, c);
            let st = clusters_upto(ms, k);
            assert(st.0 == cs.push(c));
            assert(st.1 == mark(a, c));
            assert forall|g: int, b: int|
                0 <= g < st.0.len() && 0 <= b < st.0[g].len() implies #[trigger] st.0[g][b] < n by {
                if g < cs.len() {
                    assert(st.0[g] == cs[g]);
                } else {
                    assert(st.0[g] == c);
                }
            }
            assert forall|x: int| 0 <= x < n implies (#[trigger] st.1[x] <==> st.0.flatten().contains(
                x as usize,
            )) by {
                if (f + c).contains(x as usize) {
                    let w = choose|w: int| 0 <= w < f.len() + c.len() && (f + c)[w] == x as usize;
                    if w < f.len() {
                        assert(f[w] == x as usize);
                    } else {
                        assert(c[w - f.len()] == x as usize);
                    }
                }
                if f.contains(x as usize) {
                    let w = choose|w: int| 0 <= w < f.len() && f[w] == x as usize;
                    assert((f + c)[w] == x as usize);
                }
                if c.contains(x as usize) {
                    let w = choose|w: int| 0 <= w < c.len() && c[w] == x as usize;
                    assert((f + c)[f.len() + w] == x as usize);
                }
            }
            assert forall|x: usize| #[trigger] st.0.flatten().contains(x) implies (x as int) < n by {
                let w = choose|w: int| 0 <= w < f.len() + c.len() && (f + c)[w] == x;
                if w < f.len() {
                    assert(f.contains(f[w]));
                } else {
                    assert(c[w - f.len()] == x);
                }
            }
            assert forall|x: int| 0 <= x < k implies #[trigger] st.1[x] by {
                if x == i {
                    assert(c[0] == i as usize);
                }
            }
        }
    }
}

proof fn lemma_pack_upto_facts(ms: Seq<MethodModel>, c: Seq<usize>, max: nat, k: int)
    requires
        0 <= k <= c.len(),
    ensures
        pack_upto(ms, c, max, k).0.flatten() + pack_upto(ms, c, max, k).1 == c.subrange(0, k),
        pack_upto(ms, c, max, k).2 == sum_lines(ms, pack_upto(ms, c, max, k).1),
        pack_upto(ms, c, max, k).1.len() <= 1 || pack_upto(ms, c, max, k).2 <= max,
        k > 0 ==> pack_upto(ms, c, max, k).1.len() > 0,
        forall|g: int|
            0 <= g < pack_upto(ms, c, max, k).0.len() ==> {
                let grp = #[trigger] pack_upto(ms, c, max, k).0[g];
                &&& grp.len() > 0
                &&& (sum_lines(ms, grp) <= max || grp.len() == 1)
            },
    decreases k,
{
    if k == 0 {
        assert(pack_upto(ms, c, max, 0).0.flatten() =~= Seq::<usize>::empty());
        assert(c.subrange(0, 0) =~= Seq::<usize>::empty());
    } else {
        lemma_pack_upto_facts(ms, c, max, k - 1);
        let (gs, cur, cl) = pack_upto(ms, c, max, k - 1);
        let x = c[k - 1];
        let l = ms[x as int].line_count;
        assert(c.subrange(0, k) =~= c.subrange(0, k - 1).push(x));
        gs.lemma_flatten_push(cur);
        assert(sum_lines(ms, Seq::<usize>::empty()) == 0);
        if cl + l > max && cur.len() > 0 {
            assert(seq![x].drop_last() =~= Seq::<usize>::empty());
            assert(sum_lines(ms, seq![x]) == l);
            assert((gs.flatten() + cur) + seq![x] =~= (gs.flatten() + cur).push(x));
            let ngs = gs.push(cur);
            assert forall|g: int| 0 <= g < ngs.len() implies {
                let grp = #[trigger] ngs[g];
                &&& grp.len() > 0
                &&& (sum_lines(ms, grp) <= max || grp.len() == 1)
            } by {
                if g < gs.len() {
                    assert(ngs[g] == gs[g]);
                }
            }
        } else {
            assert(cur.push(x).drop_last() =~= cur);
            assert(gs.flatten() + cur.push(x) =~= (gs.flatten() + cur).push(x));
        }
    }
}

proof fn lemma_pack_facts(ms: Seq<MethodModel>, c: Seq<usize>, max: nat)
    ensures
        pack(ms, c, max).flatten() == c,
        forall|g: int|
            0 <= g < pack(ms, c, max).len() ==> {
                let grp = #[trigger] pack(ms, c, max)[g];
                &&& grp.len() > 0
                &&& (sum_lines(ms, grp) <= max || grp.len() == 1)
            },
{
    lemma_pack_upto_facts(ms, c, max, c.len() as int);
    let (gs, cur, cl) = pack_upto(ms, c, max, c.len() as int);
    assert(c.subrange(0, c.len() as int) =~= c);
    if cur.len() > 0 {
        gs.lemma_flatten_push(cur);
        assert forall|g: int| 0 <= g < gs.push(cur).len() implies {
            let grp = #[trigger] gs.push(cur)[g];
            &&& grp.len() > 0
            &&& (sum_lines(ms, grp) <= max || grp.len() == 1)
        } by {
            if g < gs.len() {
                assert(gs.push(cur)[g] == gs[g]);
            }
        }
    } else {
        assert(gs.flatten() + cur =~= gs.flatten());
    }
}

proof fn lemma_pack_all_facts(ms: Seq<MethodModel>, cs: Seq<Seq<usize>>, max: nat, k: int)
    requires
        0 <= k <= cs.len(),
    ensures
        pack_all(ms, cs, max, k).flatten() == cs.subrange(0, k).flatten(),
        forall|g: int|
            0 <= g < pack_all(ms, cs, max, k).len() ==> {
                let grp = #[trigger] pack_all(ms, cs, max, k)[g];
                &&& grp.len() > 0
                &&& (sum_lines(ms, grp) <= max || grp.len() == 1)
            },
    decreases k,
{
    if k == 0 {
        assert(pack_all(ms, cs, max, 0).flatten() =~= Seq::<usize>::empty());
        assert(cs.subrange(0, 0).flatten() =~= Seq::<usize>::empty());
    } else {
        lemma_pack_all_facts(ms, cs, max, k - 1);
        lemma_pack_facts(ms, cs[k - 1], max);
        let prev = pack_all(ms, cs, max, k - 1);
        let pk = pack(ms, cs[k - 1], max);
        lemma_flatten_concat(prev, pk);
        assert(cs.subrange(0, k) =~= cs.subrange(0, k - 1).push(cs[k - 1]));
        cs.subrange(0, k - 1).lemma_flatten_push(cs[k - 1]);
        assert forall|g: int| 0 <= g < (prev + pk).len() implies {
            let grp = #[trigger] (prev + pk)[g];
            &&& grp.len() > 0
            &&& (sum_lines(ms, grp) <= max || grp.len() == 1)
        } by {
            if g < prev.len() {
                assert((prev + pk)[g] == prev[g]);
            } else {
                assert((prev + pk)[g] == pk[g - prev.len()]);
            }
        }
    }
}

proof fn lemma_flatten_member<A>(gs: Seq<Seq<A>>, a: int, b: int)
    requires
        0 <= a < gs.len(),
        0 <= b < gs[a].len(),
    ensures
        gs.flatten().contains(gs[a][b]),
    decreases gs.len(),
{
    if a == 0 {
        assert(gs.flatten() == gs.first() + gs.drop_first().flatten());
        assert(gs.flatten()[b] == gs[0][b]);
    } else {
        lemma_flatten_member(gs.drop_first(), a - 1, b);
        assert(gs.drop_first()[a - 1] == gs[a]);
        let w = choose|w: int|
            0 <= w < gs.drop_first().flatten().len() && gs.drop_first().flatten()[w] == gs[a][b];
        assert(gs.flatten()[gs.first().len() + w] == gs[a][b]);
    }
}

proof fn lemma_pack_all_in_range(ms: Seq<MethodModel>, cs: Seq<Seq<usize>>, max: nat, k: int)
    requires
        0 <= k <= cs.len(),
        all_below(cs, ms.len()),
    ensures
        all_below(pack_all(ms, cs, max, k), ms.len()),
{
    lemma_pack_all_facts(ms, cs, max, k);
    let gs = pack_all(ms, cs, max, k);
    assert forall|a: int, b: int| 0 <= a < gs.len() && 0 <= b < gs[a].len() implies #[trigger] gs[a][b]
        < ms.len() by {
        lemma_flatten_member(gs, a, b);
        let f = cs.subrange(0, k).flatten();
        assert(f.contains(gs[a][b]));
        lemma_flatten_in_range(cs.subrange(0, k), ms.len());
    }
}

proof fn lemma_flatten_in_range(cs: Seq<Seq<usize>>, n: nat)
    requires
        all_below(cs, n),
    ensures
        forall|x: usize| #[trigger] cs.flatten().contains(x) ==> (x as int) < n,
    decreases cs.len(),
{
    if cs.len() > 0 {
        let rest = cs.drop_first();
        assert(all_below(rest, n)) by {
            assert forall|a: int, b: int| 0 <= a < rest.len() && 0 <= b < rest[a].len() implies #[trigger] rest[a][b]
                < n by {
                assert(rest[a] == cs[a + 1]);
            }
        }
        lemma_flatten_in_range(rest, n);
        assert forall|x: usize| #[trigger] cs.flatten().contains(x) implies (x as int) < n by {
            let f = cs.first() + rest.flatten();
            assert(cs.flatten() == f);
            let w = choose|w: int| 0 <= w < f.len() && f[w] == x;
            if w < cs.first().len() {
                assert(cs[0][w] == x);
            } else {
                assert(rest.flatten()[w - cs.first().len()] == x);
                assert(rest.flatten().contains(x));
            }
        }
    }
}

/// Splitting loses and repeats nothing: the groups of a block, put end to
/// end, hold every function of the block exactly once.
pub proof fn lemma_groups_partition(ms: Seq<MethodModel>, max: nat)
    requires
        ms.len() <= usize::MAX,
    ensures
        grouping(ms, max).flatten().no_duplicates(),
        forall|x: usize| #[trigger]
            grouping(ms, max).flatten().contains(x) <==> (x as int) < ms.len(),
{
    let n = ms.len() as int;
    lemma_clusters_partition(ms, n);
    let cs = clusters(ms);
    lemma_pack_all_facts(ms, cs, max, cs.len() as int);
    assert(cs.subrange(0, cs.len() as int) =~= cs);
    assert forall|x: usize| #[trigger] grouping(ms, max).flatten().contains(x) <==> (x as int)
        < ms.len() by {
        if (x as int) < n {
            assert(clusters_upto(ms, n).1[x as int]);
        }
    }
}

/// Every group either fits the budget or holds a single function that
/// alone exceeds it; no group is empty.
pub proof fn lemma_groups_bounded(ms: Seq<MethodModel>, max: nat)
    ensures
        forall|g: int|
            0 <= g < grouping(ms, max).len() ==> {
                let grp = #[trigger] grouping(ms, max)[g];
                &&& grp.len() > 0
                &&& (sum_lines(ms, grp) <= max || grp.len() == 1)
            },
{
    let cs = clusters(ms);
    lemma_pack_all_facts(ms, cs, max, cs.len() as int);
}

/// The groups are a function of the block's records and the budget alone:
/// equal inputs give equal groups, and so equal names and contents.
pub proof fn lemma_grouping_deterministic(
    ms1: Seq<MethodModel>,
    ms2: Seq<MethodModel>,
    max1: nat,
    max2: nat,
)
    requires
        ms1 == ms2,
        max1 == max2,
    ensures
        grouping(ms1, max1) == grouping(ms2, max2),
        forall|g: int|
            0 <= g < grouping(ms1, max1).len() ==> suggested_name(
                index_models(ms1, #[trigger] grouping(ms1, max1)[g]),
            ) == suggested_name(index_models(ms2, grouping(ms2, max2)[g])),
{
}

/// Analyses `impl` blocks and splits their functions into groups.
pub struct ImplBlockAnalyzer {
    methods: Vec<MethodInfo>,
}

impl View for ImplBlockAnalyzer {
    type V = Seq<MethodModel>;

    closed spec fn view(&self) -> Seq<MethodModel> {
        self.methods@.map_values(|m: MethodInfo| m@)
    }
}

/// The record that analysis makes of function `f`, found at `position`.
pub open spec fn method_of(f: FnDecl, position: nat) -> MethodModel {
    MethodModel {
        name: f.name@,
        calls: name_views(f.callees@),
        line_count: estimated_lines(f.token_lines as nat),
        position,
    }
}

impl ImplBlockAnalyzer {
    /// An analyzer that holds no function yet.
    pub fn new() -> (r: Self)
        ensures
            r@ == Seq::<MethodModel>::empty(),
    {
        let r = ImplBlockAnalyzer { methods: Vec::new() };
        assert(r@ =~= Seq::<MethodModel>::empty());
        r
    }

    /// Records every function of `block`, in declaration order.
    pub fn analyze(&mut self, block: &ImplDecl)
        requires
            forall|k: int| 0 <= k < block.fns@.len() ==> fn_fits(#[trigger] block.fns@[k]),
        ensures
            final(self)@ == old(self)@ + Seq::new(
                block.fns@.len(),
                |k: int| method_of(block.fns@[k], k as nat),
            ),
    {
        let ghost start = self@;
        let mut i: usize = 0;
        while i < block.fns.len()
            invariant
                i <= block.fns@.len(),
                forall|k: int| 0 <= k < block.fns@.len() ==> fn_fits(#[trigger] block.fns@[k]),
                self@ == start + Seq::new(i as nat, |k: int| method_of(block.fns@[k], k as nat)),
            decreases block.fns@.len() - i,
        {
            let m = Self::analyze_method(&block.fns[i], i);
            let ghost before = self.methods@;
            self.methods.push(m);
            assert(self.methods@ == before.push(m));
            assert(m@ == method_of(block.fns@[i as int], i as nat));
            assert(self@ =~= before.map_values(|x: MethodInfo| x@).push(m@));
            assert(self@ =~= start + Seq::new(
                (i + 1) as nat,
                |k: int| method_of(block.fns@[k], k as nat),
            ));
            i = i + 1;
        }
    }

    /// The record of one function.
    fn analyze_method(f: &FnDecl, position: usize) -> (r: MethodInfo)
        requires
            fn_fits(*f),
        ensures
            r@ == method_of(*f, position as nat),
    {
        let token_lines = if f.token_lines == 0 { 1 } else { f.token_lines };
        MethodInfo {
            name: f.name.clone(),
            calls_methods: copy_names(&f.callees),
            line_count: token_lines * LINES_PER_TOKEN_LINE,
            position,
        }
    }

    /// The call graph of the recorded functions.
    fn build_dependency_graph(&self) -> (g: Vec<Vec<bool>>)
        ensures
            is_call_matrix(self@, g@),
    {
        let n = self.methods.len();
        let mut g: Vec<Vec<bool>> = Vec::new();
        let mut i: usize = 0;
        while i < n
            invariant
                n == self@.len(),
                i <= n,
                g@.len() == i,
                forall|a: int| 0 <= a < i ==> (#[trigger] g@[a])@.len() == n,
                forall|a: int, b: int|
                    0 <= a < i && 0 <= b < n ==> (#[trigger] g@[a]@[b]) == calls(self@, a, b),
            decreases n - i,
        {
            let mut row: Vec<bool> = Vec::new();
            let mut j: usize = 0;
            while j < n
                invariant
                    n == self@.len(),
                    i < n,
                    j <= n,
                    row@.len() == j,
                    forall|b: int| 0 <= b < j ==> (#[trigger] row@[b]) == calls(self@, i as int, b),
                decreases n - j,
            {
                let c = contains_name(&self.methods[i].calls_methods, &self.methods[j].name);
                row.push(c);
                j = j + 1;
            }
            g.push(row);
            i = i + 1;
        }
        g
    }

    /// Greedy single-pass clustering: each function not yet assigned seeds
    /// a cluster, which absorbs the unassigned functions that the seed
    /// calls or that call the seed.
    fn find_clusters(&self, graph: &Vec<Vec<bool>>) -> (r: Vec<Vec<usize>>)
        requires
            is_call_matrix(self@, graph@),
        ensures
            index_views(r@) == clusters(self@),
    {
        let ghost ms = self@;
        let n = self.methods.len();
        let mut clusters: Vec<Vec<usize>> = Vec::new();
        let mut assigned: Vec<bool> = Vec::new();
        let mut t: usize = 0;
        while t < n
            invariant
                t <= n,
                assigned@ == Seq::new(t as nat, |x: int| false),
            decreases n - t,
        {
            assigned.push(false);
            assert(assigned@ =~= Seq::new((t + 1) as nat, |x: int| false));
            t = t + 1;
        }
        assert(index_views(clusters@) =~= clusters_upto(ms, 0).0);
        let mut i: usize = 0;
        while i < n
            invariant
                ms == self@,
                n == ms.len(),
                is_call_matrix(ms, graph@),
                i <= n,
                assigned@.len() == n,
                index_views(clusters@) == clusters_upto(ms, i as int).0,
                assigned@ == clusters_upto(ms, i as int).1,
            decreases n - i,
        {
            if !assigned[i] {
                let ghost a0 = assigned@;
                let mut cluster: Vec<usize> = Vec::new();
                cluster.push(i);
                assigned.set(i, true);
                assert(cluster@ =~= seq![i as usize] + partners(ms, a0, i as int, 0));
                proof {
                    lemma_mark_push(a0, Seq::<usize>::empty(), i);
                    assert(Seq::<usize>::empty().push(i) == cluster@);
                    assert(mark(a0, Seq::<usize>::empty()) =~= a0);
                }
                let mut j: usize = 0;
                while j < n
                    invariant
                        n == ms.len(),
                        is_call_matrix(ms, graph@),
                        i < n,
                        j <= n,
                        a0.len() == n,
                        !a0[i as int],
                        cluster@ == seq![i as usize] + partners(ms, a0, i as int, j as int),
                        assigned@ == mark(a0, cluster@),
                    decreases n - j,
                {
                    proof {
                        lemma_partners_below(ms, a0, i as int, j as int);
                        let p = partners(ms, a0, i as int, j as int);
                        if cluster@.contains(j) {
                            let w = choose|w: int| 0 <= w < cluster@.len() && cluster@[w] == j;
                            if w > 0 {
                                assert(cluster@[w] == p[w - 1]);
                            }
                        }
                        if j == i {
                            assert(cluster@[0] == j);
                        }
                        assert(assigned@[j as int] == (a0[j as int] || j == i));
                        assert(graph@[i as int]@[j as int] == calls(ms, i as int, j as int));
                        assert(graph@[j as int]@[i as int] == calls(ms, j as int, i as int));
                    }
                    if !assigned[j] && (graph[i][j] || graph[j][i]) {
                        let ghost before = cluster@;
                        cluster.push(j);
                        assigned.set(j, true);
                        proof {
                            lemma_mark_push(a0, before, j);
                        }
                        assert(cluster@ =~= seq![i as usize] + partners(
                            ms,
                            a0,
                            i as int,
                            (j + 1) as int,
                        ));
                        assert(assigned@ =~= mark(a0, cluster@));
                    } else {
                        assert(cluster@ =~= seq![i as usize] + partners(
                            ms,
                            a0,
                            i as int,
                            (j + 1) as int,
                        ));
                    }
                    j = j + 1;
                }
                clusters.push(cluster);
                assert(index_views(clusters@) =~= clusters_upto(ms, (i + 1) as int).0);
            }
            i = i + 1;
        }
        clusters
    }

    /// Packs each cluster, in order, into groups: members accumulate until
    /// the next would push the open group over `max_lines` while it holds
    /// something; a member that alone exceeds the budget forms its own group.
    fn pack_clusters(&self, clusters: &Vec<Vec<usize>>, max_lines: usize) -> (r: Vec<Vec<usize>>)
        requires
            forall|c: int, k: int|
                0 <= c < clusters@.len() && 0 <= k < clusters@[c]@.len() ==> #[trigger] clusters@[c]@[k]
                    < self@.len(),
        ensures
            index_views(r@) == pack_all(
                self@,
                index_views(clusters@),
                max_lines as nat,
                clusters@.len() as int,
            ),
    {
        let ghost ms = self@;
        let ghost cs = index_views(clusters@);
        let ghost max = max_lines as nat;
        let mut groups: Vec<Vec<usize>> = Vec::new();
        assert(index_views(groups@) =~= pack_all(ms, cs, max, 0));
        let mut ci: usize = 0;
        while ci < clusters.len()
            invariant
                ms == self@,
                cs == index_views(clusters@),
                max == max_lines as nat,
                forall|c: int, k: int|
                    0 <= c < clusters@.len() && 0 <= k < clusters@[c]@.len()
                        ==> #[trigger] clusters@[c]@[k] < self@.len(),
                ci <= clusters@.len(),
                index_views(groups@) == pack_all(ms, cs, max, ci as int),
            decreases clusters@.len() - ci,
        {
            let cluster = &clusters[ci];
            let ghost c = cluster@;
            assert(c == cs[ci as int]);
            let mut current: Vec<usize> = Vec::new();
            let mut current_lines: usize = 0;
            let mut k: usize = 0;
            assert(index_views(groups@) =~= pack_all(ms, cs, max, ci as int) + pack_upto(
                ms,
                c,
                max,
                0,
            ).0);
            while k < cluster.len()
                invariant
                    ms == self@,
                    max == max_lines as nat,
                    c == cluster@,
                    forall|j: int| 0 <= j < c.len() ==> #[trigger] c[j] < ms.len(),
                    k <= c.len(),
                    index_views(groups@) == pack_all(ms, cs, max, ci as int) + pack_upto(
                        ms,
                        c,
                        max,
                        k as int,
                    ).0,
                    current@ == pack_upto(ms, c, max, k as int).1,
                    current_lines == pack_upto(ms, c, max, k as int).2,
                    current@.len() == 0 ==> current_lines == 0,
                decreases c.len() - k,
            {
                let x = cluster[k];
                let l = self.methods[x].line_count;
                let over = match current_lines.checked_add(l) {
                    Some(t) => t > max_lines,
                    None => true,
                };
                if over && current.len() > 0 {
                    let ghost before = groups@;
                    groups.push(current);
                    assert(index_views(groups@) =~= index_views(before).push(
                        pack_upto(ms, c, max, k as int).1,
                    ));
                    current = Vec::new();
                    current.push(x);
                    current_lines = l;
                    assert(current@ =~= seq![x]);
                } else {
                    current.push(x);
                    current_lines = current_lines + l;
                }
                k = k + 1;
            }
            let ghost st = pack_upto(ms, c, max, c.len() as int);
            if current.len() > 0 {
                let ghost before = groups@;
                groups.push(current);
                assert(index_views(groups@) =~= index_views(before).push(st.1));
            }
            assert(index_views(groups@) =~= pack_all(ms, cs, max, ci as int + 1));
            ci = ci + 1;
        }
        groups
    }

    /// Builds the groups of records from groups of indices.
    fn create_groups(&self, clusters: &Vec<Vec<usize>>, max_lines: usize) -> (r: Vec<MethodGroup>)
        requires
            forall|c: int, k: int|
                0 <= c < clusters@.len() && 0 <= k < clusters@[c]@.len() ==> #[trigger] clusters@[c]@[k]
                    < self@.len(),
        ensures
            r@.len() == pack_all(
                self@,
                index_views(clusters@),
                max_lines as nat,
                clusters@.len() as int,
            ).len(),
            forall|g: int|
                0 <= g < r@.len() ==> (#[trigger] r@[g])@ == index_models(
                    self@,
                    pack_all(
                        self@,
                        index_views(clusters@),
                        max_lines as nat,
                        clusters@.len() as int,
                    )[g],
                ),
    {
        let packed = self.pack_clusters(clusters, max_lines);
        let ghost gs = index_views(packed@);
        proof {
            lemma_pack_all_in_range(self@, index_views(clusters@), max_lines as nat, clusters@.len() as int);
        }
        let mut groups: Vec<MethodGroup> = Vec::new();
        let mut g: usize = 0;
        while g < packed.len()
            invariant
                gs == index_views(packed@),
                forall|a: int, b: int|
                    0 <= a < gs.len() && 0 <= b < gs[a].len() ==> #[trigger] gs[a][b] < self@.len(),
                g <= packed@.len(),
                groups@.len() == g,
                forall|a: int| 0 <= a < g ==> (#[trigger] groups@[a])@ == index_models(self@, gs[a]),
            decreases packed@.len() - g,
        {
            let idx = &packed[g];
            assert(idx@ == gs[g as int]);
            assert forall|b: int| 0 <= b < idx@.len() implies #[trigger] idx@[b] < self@.len() by {
                assert(gs[g as int][b] < self@.len());
            }
            let mut group = MethodGroup::new();
            let mut k: usize = 0;
            while k < idx.len()
                invariant
                    idx@ == gs[g as int],
                    forall|b: int| 0 <= b < idx@.len() ==> #[trigger] idx@[b] < self@.len(),
                    k <= idx@.len(),
                    group@ == index_models(self@, idx@.subrange(0, k as int)),
                decreases idx@.len() - k,
            {
                let m = self.methods[idx[k]].duplicate();
                assert(m@ == self@[idx@[k as int] as int]);
                let ghost before = group.methods@;
                let ghost before_view = group@;
                group.methods.push(m);
                assert(group.methods@ == before.push(m));
                assert(group@ =~= before_view.push(m@));
                assert(index_models(self@, idx@.subrange(0, k as int + 1)) =~= index_models(
                    self@,
                    idx@.subrange(0, k as int),
                ).push(self@[idx@[k as int] as int]));
                assert(group@ =~= index_models(self@, idx@.subrange(0, k as int + 1)));
                k = k + 1;
            }
            assert(idx@.subrange(0, k as int) =~= idx@);
            groups.push(group);
            g = g + 1;
        }
        groups
    }

    /// Splits the recorded functions into groups of related functions of at
    /// most `max_lines_per_group` estimated lines each (a single function
    /// larger than that stands alone).
    pub fn group_methods(&self, max_lines_per_group: usize) -> (r: Vec<MethodGroup>)
        ensures
            r@.len() == grouping(self@, max_lines_per_group as nat).len(),
            forall|g: int|
                0 <= g < r@.len() ==> (#[trigger] r@[g])@ == index_models(
                    self@,
                    grouping(self@, max_lines_per_group as nat)[g],
                ),
    {
        let graph = self.build_dependency_graph();
        let clusters = self.find_clusters(&graph);
        let n = self.methods.len();
        proof {
            assert(self@.len() == n);
            lemma_clusters_partition(self@, self@.len() as int);
            assert(all_below(index_views(clusters@), self@.len()));
            assert forall|c: int, k: int|
                0 <= c < clusters@.len() && 0 <= k < clusters@[c]@.len() implies #[trigger] clusters@[c]@[k]
                    < self@.len() by {
                assert(index_views(clusters@)[c] == clusters@[c]@);
            }
        }
        self.create_groups(&clusters, max_lines_per_group)
    }

    /// The recorded functions, in order.
    pub fn methods(&self) -> (r: &Vec<MethodInfo>)
        ensures
            r@.map_values(|m: MethodInfo| m@) == self@,
    {
        &self.methods
    }

    /// Number of recorded functions.
    pub fn get_total_methods(&self) -> (r: usize)
        ensures
            r == self@.len(),
    {
        self.methods.len()
    }

    /// Total estimated size of the recorded functions.
    pub fn get_total_lines(&self) -> (r: usize)
        requires
            model_lines(self@) <= usize::MAX,
        ensures
            r == model_lines(self@),
    {
        sum_of(&self.methods)
    }

    /// Whether the total estimated size of the recorded functions exceeds
    /// `limit`.
    pub fn total_lines_exceed(&self, limit: usize) -> (r: bool)
        ensures
            r == (model_lines(self@) > limit),
    {
        sum_exceeds(&self.methods, limit)
    }
}

} // verus!
