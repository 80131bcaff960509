//! Unique module names: a requested name that is already taken gets the
//! first free numeric suffix (`foo`, then `foo_1`, `foo_2`, ...).

use vstd::prelude::*;
use vstd::string::*;
use vstd::set_lib::*;
use vstd::relations::injective_on;
use crate::text::{decimal, decimal_of, digit_char, same_text};

verus! {

/// `base` with the numeric suffix `j`.
pub open spec fn suffixed(base: Seq<char>, j: nat) -> Seq<char> {
    base + "_"@ + decimal_of(j)
}

/// The first suffix from `j` on that makes `base` a name not in `used`
/// (looking no further than one past the number of names in use).
pub open spec fn first_free(used: Seq<Seq<char>>, base: Seq<char>, j: nat) -> nat
    decreases used.len() + 2 - j,
{
    if j > used.len() + 1 || !used.contains(suffixed(base, j)) {
        j
    } else {
        first_free(used, base, j + 1)
    }
}

/// The name given to a request for `base` when `used` are taken.
pub open spec fn fresh_name(used: Seq<Seq<char>>, base: Seq<char>) -> Seq<char> {
    if !used.contains(base) {
        base
    } else {
        suffixed(base, first_free(used, base, 1))
    }
}

/// The names given to the requests `bases`, in order.
pub open spec fn unit_names(bases: Seq<Seq<char>>) -> Seq<Seq<char>>
    decreases bases.len(),
{
    if bases.len() == 0 {
        seq![]
    } else {
        let prev = unit_names(bases.drop_last());
        prev.push(fresh_name(prev, bases.last()))
    }
}

proof fn lemma_digit_char(a: nat, b: nat)
    requires
        digit_char(a) == digit_char(b),
    ensures
        a % 10 == b % 10,
{
    assert(digit_char(a) as int == (a % 10) + 48);
    assert(digit_char(b) as int == (b % 10) + 48);
}

proof fn lemma_decimal_len(n: nat)
    ensures
        decimal_of(n).len() >= 1,
        n >= 10 ==> decimal_of(n).len() >= 2,
    decreases n,
{
    if n >= 10 {
        lemma_decimal_len(n / 10);
    }
}

/// Decimal rendering is one to one.
proof fn lemma_decimal_injective(a: nat, b: nat)
    requires
        decimal_of(a) == decimal_of(b),
    ensures
        a == b,
    decreases a,
{
    lemma_decimal_len(a);
    lemma_decimal_len(b);
    if a < 10 && b < 10 {
        assert(decimal_of(a)[0] == digit_char(a));
        assert(decimal_of(b)[0] == digit_char(b));
        lemma_digit_char(a, b);
    } else if a >= 10 && b >= 10 {
        let (da, db) = (decimal_of(a), decimal_of(b));
        assert(da.last() == digit_char(a % 10));
        assert(db.last() == digit_char(b % 10));
        lemma_digit_char(a % 10, b % 10);
        assert(da.drop_last() =~= decimal_of(a / 10));
        assert(db.drop_last() =~= decimal_of(b / 10));
        lemma_decimal_injective(a / 10, b / 10);
    } else if a < 10 {
        assert(decimal_of(a).len() == 1);
    } else {
        assert(decimal_of(b).len() == 1);
    }
}

proof fn lemma_suffixed_injective(base: Seq<char>, a: nat, b: nat)
    requires
        suffixed(base, a) == suffixed(base, b),
    ensures
        a == b,
{
    reveal_strlit("_");
    let k = base.len() + 1;
    let (sa, sb) = (suffixed(base, a), suffixed(base, b));
    assert(sa.subrange(k as int, sa.len() as int) =~= decimal_of(a));
    assert(sb.subrange(k as int, sb.len() as int) =~= decimal_of(b));
    lemma_decimal_injective(a, b);
}

/// Among the suffixes `1..=used.len() + 1` one is free.
proof fn lemma_some_suffix_free(used: Seq<Seq<char>>, base: Seq<char>)
    ensures
        exists|j: nat| 1 <= j <= used.len() + 1 && !used.contains(#[trigger] suffixed(base, j)),
{
    if forall|j: nat| 1 <= j <= used.len() + 1 ==> used.contains(#[trigger] suffixed(base, j)) {
        let u = used.len() as int;
        let x = set_int_range(1, u + 2);
        let f = |j: int| suffixed(base, j as nat);
        lemma_int_range(1, u + 2);
        assert(injective_on(f, x)) by {
            assert forall|p: int, q: int| x.contains(p) && x.contains(q) && #[trigger] f(p) == #[trigger] f(q) implies p == q by {
                lemma_suffixed_injective(base, p as nat, q as nat);
            }
        }
        lemma_map_size(x, x.map(f), f);
        assert(x.map(f).subset_of(used.to_set())) by {
            assert forall|y: Seq<char>| #[trigger] x.map(f).contains(y) implies used.to_set().contains(y) by {
                let p = choose|p: int| x.contains(p) && f(p) == y;
                assert(used.contains(suffixed(base, p as nat)));
            }
        }
        used.lemma_cardinality_of_set();
        lemma_len_subset(x.map(f), used.to_set());
    }
}

proof fn lemma_first_free(used: Seq<Seq<char>>, base: Seq<char>, j: nat, w: nat)
    requires
        1 <= j <= w <= used.len() + 1,
        !used.contains(suffixed(base, w)),
    ensures
        !used.contains(suffixed(base, first_free(used, base, j))),
        j <= first_free(used, base, j) <= w,
    decreases w - j,
{
    if used.contains(suffixed(base, j)) {
        lemma_first_free(used, base, j + 1, w);
    }
}

/// A fresh name is not in use.
pub proof fn lemma_fresh_name_unused(used: Seq<Seq<char>>, base: Seq<char>)
    ensures
        !used.contains(fresh_name(used, base)),
{
    if used.contains(base) {
        lemma_some_suffix_free(used, base);
        let w = choose|w: nat| 1 <= w <= used.len() + 1 && !used.contains(#[trigger] suffixed(base, w));
        lemma_first_free(used, base, 1, w);
    }
}

/// Unit names never collide: the names given to any sequence of requests
/// are pairwise distinct, and a request whose name is still free keeps it.
pub proof fn lemma_unit_names_distinct(bases: Seq<Seq<char>>)
    ensures
        unit_names(bases).len() == bases.len(),
        unit_names(bases).no_duplicates(),
        forall|k: int|
            0 <= k < bases.len() && !unit_names(bases).subrange(0, k).contains(bases[k]) ==> #[trigger] unit_names(
                bases,
            )[k] == bases[k],
    decreases bases.len(),
{
    if bases.len() > 0 {
        let t = bases.drop_last();
        lemma_unit_names_distinct(t);
        let prev = unit_names(t);
        let r = unit_names(bases);
        lemma_fresh_name_unused(prev, bases.last());
        assert(r == prev.push(fresh_name(prev, bases.last())));
        assert forall|a: int, b: int| 0 <= a < r.len() && 0 <= b < r.len() && a != b implies r[a] != r[b] by {
            if a == prev.len() {
                assert(prev.contains(prev[b]));
            } else if b == prev.len() {
                assert(prev.contains(prev[a]));
            } else {
                assert(r[a] == prev[a] && r[b] == prev[b]);
            }
        }
        assert forall|k: int|
            0 <= k < bases.len() && !r.subrange(0, k).contains(bases[k]) implies #[trigger] r[k] == bases[k] by {
            if k < t.len() {
                assert(r.subrange(0, k) =~= prev.subrange(0, k));
                assert(t[k] == bases[k]);
            } else {
                assert(r.subrange(0, k) =~= prev);
            }
        }
    }
}

/// Whether `names` holds `n`.
fn holds_name(names: &Vec<String>, n: &str) -> (r: bool)
    ensures
        r == names@.map_values(|s: String| s@).contains(n@),
{
    let ghost v = names@.map_values(|s: String| s@);
    let mut i: usize = 0;
    while i < names.len()
        invariant
            v == names@.map_values(|s: String| s@),
            i <= names@.len(),
            forall|k: int| 0 <= k < i ==> v[k] != n@,
        decreases names@.len() - i,
    {
        if same_text(names[i].as_str(), n) {
            assert(v[i as int] == n@);
            return true;
        }
        i = i + 1;
    }
    false
}

/// `base` with the numeric suffix `j`, computed.
fn with_suffix(base: &str, j: usize) -> (r: String)
    ensures
        r@ == suffixed(base@, j as nat),
{
    let mut r = String::from_str(base);
    r.append("_");
    let d = decimal(j as u128);
    r.append(d.as_str());
    r
}

/// Gives unique names to a list of requested module names.
pub struct NameAllocator {
    used: Vec<String>,
}

impl NameAllocator {
    /// The names given so far, in order.
    pub closed spec fn given(&self) -> Seq<Seq<char>> {
        self.used@.map_values(|s: String| s@)
    }

    /// An allocator that has given no name.
    pub fn new() -> (r: Self)
        ensures
            r.given() == Seq::<Seq<char>>::empty(),
    {
        let r = NameAllocator { used: Vec::new() };
        assert(r.given() =~= Seq::<Seq<char>>::empty());
        r
    }

    /// The name for a new unit that asks for `base`: `base` itself when
    /// free, else `base` with the first free numeric suffix from `1` on.
    pub fn allocate(&mut self, base: &str) -> (r: String)
        requires
            old(self).given().len() < usize::MAX,
        ensures
            r@ == fresh_name(old(self).given(), base@),
            final(self).given() == old(self).given().push(r@),
    {
        let ghost used = self.given();
        let name = if !holds_name(&self.used, base) {
            String::from_str(base)
        } else {
            let ghost ff = first_free(used, base@, 1);
            proof {
                lemma_some_suffix_free(used, base@);
                let w = choose|w: nat| 1 <= w <= used.len() + 1 && !used.contains(#[trigger] suffixed(base@, w));
                lemma_first_free(used, base@, 1, w);
            }
            let mut j: usize = 1;
            let mut candidate = with_suffix(base, 1);
            while holds_name(&self.used, candidate.as_str())
                invariant
                    used == self.given(),
                    1 <= j <= ff,
                    ff <= used.len() + 1,
                    used.len() < usize::MAX,
                    !used.contains(suffixed(base@, ff)),
                    candidate@ == suffixed(base@, j as nat),
                    first_free(used, base@, j as nat) == ff,
                decreases ff - j,
            {
                j = j + 1;
                candidate = with_suffix(base, j);
            }
            candidate
        };
        let ghost nv = name@;
        self.used.push(name.clone());
        assert(self.given() =~= used.push(nv));
        name
    }
}

} // verus!
