//! Finite experiments on a square lattice window: how many nonzero points it holds,
//! how many lie in a basic open, and which quotient points (prime supports) occur,
//! with their multiplicities, in increasing order.
use vstd::prelude::*;

use crate::arithmetic::{GaussianError, GaussianInt};
use crate::divisors::{lemma_sorted_set_eq, lex_lt, prime_divisors, strictly_sorted, support_set};
use crate::factor::{class_views, is_support_of, prime_support, PrimeClass};
use crate::gcd::{coprime_spec, gcd_spec};
use crate::ring::{gnorm, gzero, Gz};
use crate::topology::sigma_contains;

verus! {

/// Largest radius of a window census.
pub const MAX_WINDOW_RADIUS: i64 = 100;

/// Row `re` of the square window of radius `r`: the points `re + im*i` for `im`
/// from `-r` to `r`.
pub open spec fn window_row(re: int, r: int) -> Seq<Gz> {
    Seq::new((2 * r + 1) as nat, |j: int| (re, j - r))
}

/// The first `rows` rows of the square window of radius `r`, from `re = -r` upward.
pub open spec fn window_rows(r: int, rows: nat) -> Seq<Gz>
    decreases rows,
{
    if rows == 0 {
        Seq::empty()
    } else {
        window_rows(r, (rows - 1) as nat) + window_row(-r + rows - 1, r)
    }
}

/// The points of the square `-r <= re, im <= r`, row by row.
pub open spec fn window_square(r: int) -> Seq<Gz> {
    window_rows(r, (2 * r + 1) as nat)
}

/// The number of points of `s` satisfying `pred`.
pub open spec fn count_where(s: Seq<Gz>, pred: spec_fn(Gz) -> bool) -> nat
    decreases s.len(),
{
    if s.len() == 0 {
        0
    } else {
        count_where(s.drop_last(), pred) + if pred(s.last()) {
            1nat
        } else {
            0nat
        }
    }
}

/// The nonzero points: the points of the space.
pub open spec fn nonzero_point() -> spec_fn(Gz) -> bool {
    |z: Gz| z != gzero()
}

/// The origin.
pub open spec fn origin_point() -> spec_fn(Gz) -> bool {
    |z: Gz| z == gzero()
}

/// The nonzero points of the basic open `sigma_index`.
pub open spec fn in_basic_open(index: Gz) -> spec_fn(Gz) -> bool {
    |z: Gz| z != gzero() && coprime_spec(index, z)
}

/// The nonzero points outside the basic open `sigma_index`.
pub open spec fn outside_basic_open(index: Gz) -> spec_fn(Gz) -> bool {
    |z: Gz| z != gzero() && !coprime_spec(index, z)
}

/// The nonzero points whose prime support is the set of the listed classes.
pub open spec fn with_support(key: Seq<Gz>) -> spec_fn(Gz) -> bool {
    |z: Gz| z != gzero() && prime_divisors(z) == support_set(key)
}

/// The error of the first nonzero point of `s` whose coprimality test with `index`
/// fails, if any.
pub open spec fn first_gcd_error(index: Gz, s: Seq<Gz>) -> Option<GaussianError>
    decreases s.len(),
{
    if s.len() == 0 {
        None
    } else {
        match first_gcd_error(index, s.drop_last()) {
            Some(e) => Some(e),
            None => if s.last() == gzero() {
                None
            } else {
                match gcd_spec(index, s.last()) {
                    Ok(_) => None,
                    Err(e) => Some(e),
                }
            },
        }
    }
}

/// Lexicographic order on lists of canonical primes: the order of finite sets of
/// prime classes compared through their increasing listings.
pub open spec fn seq_lex_lt(a: Seq<Gz>, b: Seq<Gz>) -> bool
    decreases a.len(),
{
    if b.len() == 0 {
        false
    } else if a.len() == 0 {
        true
    } else if a[0] != b[0] {
        lex_lt(a[0], b[0])
    } else {
        seq_lex_lt(a.drop_first(), b.drop_first())
    }
}

/// One quotient point met in a window, and how many window points have it.
pub struct WindowClass {
    pub support: Vec<PrimeClass>,
    pub count: u64,
}

/// The listing of a recorded quotient point.
pub open spec fn class_key(c: WindowClass) -> Seq<Gz> {
    class_views(c.support@)
}

/// `classes` lists, once each and in increasing order, the prime supports of the
/// nonzero points of `seen`, with the number of points having each.
pub open spec fn is_class_census(classes: Seq<WindowClass>, seen: Seq<Gz>) -> bool {
    &&& forall|i: int, j: int|
        0 <= i < j < classes.len() ==> seq_lex_lt(
            class_key(#[trigger] classes[i]),
            class_key(#[trigger] classes[j]),
        )
    &&& forall|i: int|
        0 <= i < classes.len() ==> {
            &&& strictly_sorted(class_key(#[trigger] classes[i]))
            &&& classes[i].count >= 1
            &&& classes[i].count == count_where(seen, with_support(class_key(classes[i])))
        }
    &&& forall|k: int|
        #![trigger seen[k]]
        0 <= k < seen.len() && seen[k] != gzero() ==> exists|i: int|
            #![trigger classes[i]]
            0 <= i < classes.len() && support_set(class_key(classes[i])) == prime_divisors(seen[k])
}

/// The census of the window points `s` for the basic open of `index`.
pub struct WindowCensus {
    pub points: u64,
    pub members: u64,
    pub classes: Vec<WindowClass>,
}

/// `c` counts the nonzero points of `s`, those in `sigma_index`, and the quotient points.
pub open spec fn is_census_of(c: WindowCensus, index: Gz, s: Seq<Gz>) -> bool {
    &&& c.points == count_where(s, nonzero_point())
    &&& c.members == count_where(s, in_basic_open(index))
    &&& is_class_census(c.classes@, s)
}

// ---------------------------------------------------------------------------
// Counting
// ---------------------------------------------------------------------------

proof fn lemma_count_push(s: Seq<Gz>, x: Gz, pred: spec_fn(Gz) -> bool)
    ensures
        count_where(s.push(x), pred) == count_where(s, pred) + if pred(x) {
            1nat
        } else {
            0nat
        },
{
    assert(s.push(x).drop_last() =~= s);
}

proof fn lemma_count_bound(s: Seq<Gz>, pred: spec_fn(Gz) -> bool)
    ensures
        count_where(s, pred) <= s.len(),
    decreases s.len(),
{
    if s.len() > 0 {
        lemma_count_bound(s.drop_last(), pred);
    }
}

/// A count is zero when no point satisfies the predicate.
proof fn lemma_count_none(s: Seq<Gz>, pred: spec_fn(Gz) -> bool)
    requires
        forall|k: int| 0 <= k < s.len() ==> !pred(#[trigger] s[k]),
    ensures
        count_where(s, pred) == 0,
    decreases s.len(),
{
    if s.len() > 0 {
        assert forall|k: int| 0 <= k < s.drop_last().len() implies !pred(
            #[trigger] s.drop_last()[k],
        ) by {
            assert(s.drop_last()[k] == s[k]);
        }
        lemma_count_none(s.drop_last(), pred);
        assert(!pred(s[s.len() - 1]));
    }
}

/// Counting a stronger predicate gives no more.
proof fn lemma_count_monotone(s: Seq<Gz>, p: spec_fn(Gz) -> bool, q: spec_fn(Gz) -> bool)
    requires
        forall|z: Gz| #[trigger] p(z) ==> q(z),
    ensures
        count_where(s, p) <= count_where(s, q),
    decreases s.len(),
{
    if s.len() > 0 {
        lemma_count_monotone(s.drop_last(), p, q);
        assert(p(s.last()) ==> q(s.last()));
    }
}

// ---------------------------------------------------------------------------
// The lexicographic order on listings
// ---------------------------------------------------------------------------

proof fn lemma_seq_lex_irreflexive(a: Seq<Gz>)
    ensures
        !seq_lex_lt(a, a),
    decreases a.len(),
{
    if a.len() > 0 {
        lemma_seq_lex_irreflexive(a.drop_first());
    }
}

proof fn lemma_seq_lex_total(a: Seq<Gz>, b: Seq<Gz>)
    ensures
        a == b || seq_lex_lt(a, b) || seq_lex_lt(b, a),
    decreases a.len(),
{
    if a.len() == 0 && b.len() == 0 {
        assert(a =~= b);
    } else if a.len() > 0 && b.len() > 0 && a[0] == b[0] {
        lemma_seq_lex_total(a.drop_first(), b.drop_first());
        if a.drop_first() == b.drop_first() {
            assert forall|i: int| 0 <= i < a.len() implies a[i] == b[i] by {
                if i > 0 {
                    assert(a[i] == a.drop_first()[i - 1]);
                    assert(b[i] == b.drop_first()[i - 1]);
                }
            }
            assert(a =~= b);
        }
    }
}

proof fn lemma_seq_lex_trans(a: Seq<Gz>, b: Seq<Gz>, c: Seq<Gz>)
    requires
        seq_lex_lt(a, b),
        seq_lex_lt(b, c),
    ensures
        seq_lex_lt(a, c),
    decreases a.len(),
{
    if a.len() > 0 && a[0] == b[0] && b[0] == c[0] {
        lemma_seq_lex_trans(a.drop_first(), b.drop_first(), c.drop_first());
    }
}

/// Whether two prime classes are the same.
fn same_class(a: PrimeClass, b: PrimeClass) -> (r: bool)
    ensures
        r == (a@ == b@),
{
    let (x, y) = (a.representative(), b.representative());
    x.re == y.re && x.im == y.im
}

/// Whether a class comes before another in lexicographic order.
fn class_less(a: PrimeClass, b: PrimeClass) -> (r: bool)
    ensures
        r == lex_lt(a@, b@),
{
    let (x, y) = (a.representative(), b.representative());
    x.re < y.re || (x.re == y.re && x.im < y.im)
}

/// Lexicographic comparison of two listings of prime classes.
fn classes_less(a: &Vec<PrimeClass>, b: &Vec<PrimeClass>) -> (r: bool)
    ensures
        r == seq_lex_lt(class_views(a@), class_views(b@)),
{
    let ghost sa = class_views(a@);
    let ghost sb = class_views(b@);
    let mut i: usize = 0;
    assert(sa.skip(0) =~= sa && sb.skip(0) =~= sb);
    while i < a.len() && i < b.len() && same_class(a[i], b[i])
        invariant
            i <= a.len(),
            i <= b.len(),
            sa == class_views(a@),
            sb == class_views(b@),
            seq_lex_lt(sa, sb) == seq_lex_lt(sa.skip(i as int), sb.skip(i as int)),
        decreases a.len() - i,
    {
        proof {
            let (x, y) = (sa.skip(i as int), sb.skip(i as int));
            assert(x[0] == y[0]);
            assert(x.drop_first() =~= sa.skip(i + 1));
            assert(y.drop_first() =~= sb.skip(i + 1));
        }
        i = i + 1;
    }
    let ghost (x, y) = (sa.skip(i as int), sb.skip(i as int));
    if i == b.len() {
        assert(y.len() == 0);
        return false;
    }
    if i == a.len() {
        assert(x.len() == 0 && y.len() > 0);
        return true;
    }
    assert(x[0] == sa[i as int] && y[0] == sb[i as int]);
    class_less(a[i], b[i])
}

// ---------------------------------------------------------------------------
// Recording quotient points
// ---------------------------------------------------------------------------

/// Two strictly sorted listings with the same classes are equal, so distinct
/// recorded listings have distinct sets.
proof fn lemma_key_sets_differ(a: Seq<Gz>, b: Seq<Gz>)
    requires
        strictly_sorted(a),
        strictly_sorted(b),
        a != b,
    ensures
        support_set(a) != support_set(b),
{
    if support_set(a) == support_set(b) {
        lemma_sorted_set_eq(a, b);
    }
}

/// Records one more nonzero point `z` with support listing `support`.
fn record_support(
    classes: &mut Vec<WindowClass>,
    support: Vec<PrimeClass>,
    Ghost(seen): Ghost<Seq<Gz>>,
    Ghost(z): Ghost<Gz>,
)
    requires
        is_class_census(old(classes)@, seen),
        z != gzero(),
        is_support_of(class_views(support@), z),
        seen.len() < 1_000_000,
    ensures
        is_class_census(final(classes)@, seen.push(z)),
{
    let ghost key = class_views(support@);
    let ghost old_classes = classes@;
    let ghost next = seen.push(z);
    assert(with_support(key)(z));
    let mut i: usize = 0;
    while i < classes.len() && classes_less(&classes[i].support, &support)
        invariant
            i <= classes.len(),
            classes@ == old_classes,
            key == class_views(support@),
            forall|k: int| 0 <= k < i ==> seq_lex_lt(class_key(#[trigger] old_classes[k]), key),
        decreases classes.len() - i,
    {
        i = i + 1;
    }
    // every other listing is a different set, so `z` does not count for it
    assert forall|j: int| 0 <= j < old_classes.len() && class_key(#[trigger] old_classes[j]) != key
        implies !with_support(class_key(old_classes[j]))(z) by {
        lemma_key_sets_differ(class_key(old_classes[j]), key);
    }
    if i < classes.len() && !classes_less(&support, &classes[i].support) {
        // the listing is recorded at `i`: count one more point
        proof {
            lemma_seq_lex_total(class_key(old_classes[i as int]), key);
            lemma_count_bound(seen, with_support(key));
        }
        let entry = classes.remove(i);
        let count = entry.count + 1;
        classes.insert(i, WindowClass { support: entry.support, count });
        proof {
            let c = classes@;
            assert(c =~= old_classes.update(i as int, c[i as int]));
            assert(class_key(c[i as int]) == key);
            assert forall|a: int, b: int| 0 <= a < b < c.len() implies seq_lex_lt(
                class_key(#[trigger] c[a]),
                class_key(#[trigger] c[b]),
            ) by {
                assert(class_key(c[a]) == class_key(old_classes[a]));
                assert(class_key(c[b]) == class_key(old_classes[b]));
            }
            assert forall|j: int| 0 <= j < c.len() implies {
                &&& strictly_sorted(class_key(#[trigger] c[j]))
                &&& c[j].count >= 1
                &&& c[j].count == count_where(next, with_support(class_key(c[j])))
            } by {
                lemma_count_push(seen, z, with_support(class_key(c[j])));
                if j != i {
                    lemma_seq_lex_irreflexive(key);
                    if class_key(old_classes[j]) == key {
                        if j < i {
                            assert(seq_lex_lt(class_key(old_classes[j]), key));
                        } else {
                            assert(seq_lex_lt(
                                class_key(old_classes[i as int]),
                                class_key(old_classes[j]),
                            ));
                        }
                    }
                }
            }
            assert forall|k: int|
                #![trigger next[k]]
                0 <= k < next.len() && next[k] != gzero() implies exists|m: int|
                #![trigger c[m]]
                0 <= m < c.len() && support_set(class_key(c[m])) == prime_divisors(next[k]) by {
                if k < seen.len() {
                    assert(next[k] == seen[k]);
                    let m = choose|m: int|
                        #![trigger old_classes[m]]
                        0 <= m < old_classes.len() && support_set(class_key(old_classes[m]))
                            == prime_divisors(seen[k]);
                    assert(class_key(c[m]) == class_key(old_classes[m]));
                } else {
                    assert(class_key(c[i as int]) == key);
                }
            }
        }
    } else {
        // a new listing: insert it in order with a count of one
        proof {
            if i < old_classes.len() {
                lemma_seq_lex_total(class_key(old_classes[i as int]), key);
                lemma_seq_lex_irreflexive(key);
            }
            // no point seen so far has this support
            assert forall|k: int| 0 <= k < seen.len() implies !with_support(key)(
                #[trigger] seen[k],
            ) by {
                if with_support(key)(seen[k]) {
                    let m = choose|m: int|
                        #![trigger old_classes[m]]
                        0 <= m < old_classes.len() && support_set(class_key(old_classes[m]))
                            == prime_divisors(seen[k]);
                    lemma_sorted_set_eq(class_key(old_classes[m]), key);
                    lemma_seq_lex_irreflexive(key);
                    if m > i {
                        lemma_seq_lex_trans(key, class_key(old_classes[i as int]), key);
                    }
                }
            }
            lemma_count_none(seen, with_support(key));
            lemma_count_push(seen, z, with_support(key));
        }
        let entry = WindowClass { support, count: 1 };
        classes.insert(i, entry);
        proof {
            let c = classes@;
            assert(c =~= old_classes.insert(i as int, entry));
            assert(class_key(c[i as int]) == key);
            assert forall|a: int, b: int| 0 <= a < b < c.len() implies seq_lex_lt(
                class_key(#[trigger] c[a]),
                class_key(#[trigger] c[b]),
            ) by {
                if b < i {
                    assert(c[a] == old_classes[a] && c[b] == old_classes[b]);
                } else if b == i {
                    assert(c[a] == old_classes[a]);
                } else if a < i {
                    assert(c[a] == old_classes[a] && c[b] == old_classes[b - 1]);
                    if b - 1 > i {
                        lemma_seq_lex_trans(
                            key,
                            class_key(old_classes[i as int]),
                            class_key(old_classes[b - 1]),
                        );
                    }
                    lemma_seq_lex_trans(class_key(old_classes[a]), key, class_key(c[b]));
                } else if a == i {
                    assert(c[b] == old_classes[b - 1]);
                    if b - 1 > i {
                        lemma_seq_lex_trans(
                            key,
                            class_key(old_classes[i as int]),
                            class_key(old_classes[b - 1]),
                        );
                    }
                } else {
                    assert(c[a] == old_classes[a - 1] && c[b] == old_classes[b - 1]);
                }
            }
            assert forall|j: int| 0 <= j < c.len() implies {
                &&& strictly_sorted(class_key(#[trigger] c[j]))
                &&& c[j].count >= 1
                &&& c[j].count == count_where(next, with_support(class_key(c[j])))
            } by {
                if j != i {
                    let o = if j < i {
                        j
                    } else {
                        j - 1
                    };
                    assert(c[j] == old_classes[o]);
                    lemma_count_push(seen, z, with_support(class_key(c[j])));
                    if class_key(old_classes[o]) == key {
                        lemma_seq_lex_irreflexive(key);
                        if o > i {
                            lemma_seq_lex_trans(key, class_key(old_classes[i as int]), key);
                        }
                    }
                }
            }
            assert forall|k: int|
                #![trigger next[k]]
                0 <= k < next.len() && next[k] != gzero() implies exists|m: int|
                #![trigger c[m]]
                0 <= m < c.len() && support_set(class_key(c[m])) == prime_divisors(next[k]) by {
                if k < seen.len() {
                    assert(next[k] == seen[k]);
                    let m = choose|m: int|
                        #![trigger old_classes[m]]
                        0 <= m < old_classes.len() && support_set(class_key(old_classes[m]))
                            == prime_divisors(seen[k]);
                    if m < i {
                        assert(c[m] == old_classes[m]);
                    } else {
                        assert(c[m + 1] == old_classes[m]);
                    }
                } else {
                    assert(class_key(c[i as int]) == key);
                }
            }
        }
    }
}

// ---------------------------------------------------------------------------
// The window
// ---------------------------------------------------------------------------

proof fn lemma_rows_len(r: int, k: nat)
    requires
        r >= 0,
    ensures
        window_rows(r, k).len() == k * (2 * r + 1),
    decreases k,
{
    if k > 0 {
        lemma_rows_len(r, (k - 1) as nat);
        assert(window_row(-r + k - 1, r).len() == 2 * r + 1);
        assert(window_rows(r, k).len() == window_rows(r, (k - 1) as nat).len() + (2 * r + 1));
        assert((k - 1) * (2 * r + 1) + (2 * r + 1) == k * (2 * r + 1)) by (nonlinear_arith);
    } else {
        assert(k * (2 * r + 1) == 0) by (nonlinear_arith)
            requires
                k == 0,
        ;
    }
}

/// The first `k + 1` rows begin the first `m` rows.
proof fn lemma_rows_prefix(r: int, k: nat, m: nat) -> (t: Seq<Gz>)
    requires
        k < m,
    ensures
        window_rows(r, m) == window_rows(r, (k + 1) as nat) + t,
    decreases m,
{
    if m == k + 1 {
        assert(window_rows(r, m) =~= window_rows(r, (k + 1) as nat) + Seq::<Gz>::empty());
        Seq::empty()
    } else {
        let t0 = lemma_rows_prefix(r, k, (m - 1) as nat);
        let t = t0 + window_row(-r + m - 1, r);
        assert(window_rows(r, m) =~= window_rows(r, (k + 1) as nat) + t);
        t
    }
}

proof fn lemma_first_error_push(index: Gz, s: Seq<Gz>, x: Gz)
    ensures
        first_gcd_error(index, s.push(x)) == match first_gcd_error(index, s) {
            Some(e) => Some(e),
            None => if x == gzero() {
                None
            } else {
                match gcd_spec(index, x) {
                    Ok(_) => None,
                    Err(e) => Some(e),
                }
            },
        },
{
    assert(s.push(x).drop_last() =~= s);
}

/// A failure met in a prefix is the first failure of the whole.
proof fn lemma_first_error_prefix(index: Gz, a: Seq<Gz>, b: Seq<Gz>)
    requires
        first_gcd_error(index, a) is Some,
    ensures
        first_gcd_error(index, a + b) == first_gcd_error(index, a),
    decreases b.len(),
{
    if b.len() == 0 {
        assert(a + b =~= a);
    } else {
        lemma_first_error_prefix(index, a, b.drop_last());
        assert((a + b).drop_last() =~= a + b.drop_last());
    }
}

/// The origin changes no count and no quotient point.
proof fn lemma_census_push_zero(classes: Seq<WindowClass>, seen: Seq<Gz>)
    requires
        is_class_census(classes, seen),
    ensures
        is_class_census(classes, seen.push(gzero())),
{
    let next = seen.push(gzero());
    assert forall|i: int| 0 <= i < classes.len() implies {
        &&& strictly_sorted(class_key(#[trigger] classes[i]))
        &&& classes[i].count >= 1
        &&& classes[i].count == count_where(next, with_support(class_key(classes[i])))
    } by {
        lemma_count_push(seen, gzero(), with_support(class_key(classes[i])));
    }
    assert forall|k: int|
        #![trigger next[k]]
        0 <= k < next.len() && next[k] != gzero() implies exists|i: int|
        #![trigger classes[i]]
        0 <= i < classes.len() && support_set(class_key(classes[i])) == prime_divisors(next[k]) by {
        assert(next[k] == seen[k]);
    }
}

/// Every point is the origin or a nonzero point.
proof fn lemma_count_split(s: Seq<Gz>)
    ensures
        count_where(s, nonzero_point()) + count_where(s, origin_point()) == s.len(),
    decreases s.len(),
{
    if s.len() > 0 {
        lemma_count_split(s.drop_last());
    }
}

/// Every nonzero point lies in `sigma_index` or outside it: the nonzero points are
/// the members plus the nonmembers.
pub proof fn lemma_members_and_nonmembers(s: Seq<Gz>, index: Gz)
    ensures
        count_where(s, nonzero_point()) == count_where(s, in_basic_open(index)) + count_where(
            s,
            outside_basic_open(index),
        ),
    decreases s.len(),
{
    if s.len() > 0 {
        lemma_members_and_nonmembers(s.drop_last(), index);
    }
}

/// Counting over a concatenation adds the counts.
proof fn lemma_count_concat(a: Seq<Gz>, b: Seq<Gz>, pred: spec_fn(Gz) -> bool)
    ensures
        count_where(a + b, pred) == count_where(a, pred) + count_where(b, pred),
    decreases b.len(),
{
    if b.len() == 0 {
        assert(a + b =~= a);
    } else {
        lemma_count_concat(a, b.drop_last(), pred);
        assert((a + b).drop_last() =~= a + b.drop_last());
    }
}

/// A row meets the origin once when it is row `0`, else never.
proof fn lemma_row_origin(re: int, r: int, m: int)
    requires
        r >= 0,
        0 <= m <= 2 * r + 1,
    ensures
        count_where(window_row(re, r).take(m), origin_point()) == if re == 0 && m > r {
            1nat
        } else {
            0nat
        },
    decreases m,
{
    let row = window_row(re, r);
    if m == 0 {
        assert(row.take(0) =~= Seq::<Gz>::empty());
    } else {
        lemma_row_origin(re, r, m - 1);
        assert(row.take(m).drop_last() =~= row.take(m - 1));
        assert(row.take(m).last() == (re, m - 1 - r));
    }
}

/// The first `k` rows meet the origin once when they reach row `0`.
proof fn lemma_rows_origin(r: int, k: nat)
    requires
        r >= 0,
    ensures
        count_where(window_rows(r, k), origin_point()) == if k > r {
            1nat
        } else {
            0nat
        },
    decreases k,
{
    if k > 0 {
        let row = window_row(-r + k - 1, r);
        lemma_rows_origin(r, (k - 1) as nat);
        lemma_count_concat(window_rows(r, (k - 1) as nat), row, origin_point());
        lemma_row_origin(-r + k - 1, r, 2 * r + 1);
        assert(row.take(2 * r + 1) =~= row);
    }
}

/// The square window of radius `r` holds `(2r + 1)^2 - 1` nonzero points.
pub proof fn lemma_window_point_count(r: int)
    requires
        r >= 0,
    ensures
        count_where(window_square(r), nonzero_point()) == (2 * r + 1) * (2 * r + 1) - 1,
{
    lemma_rows_len(r, (2 * r + 1) as nat);
    lemma_rows_origin(r, (2 * r + 1) as nat);
    lemma_count_split(window_square(r));
}

/// A positive count has a witness.
proof fn lemma_count_witness(s: Seq<Gz>, pred: spec_fn(Gz) -> bool)
    requires
        count_where(s, pred) > 0,
    ensures
        exists|k: int| 0 <= k < s.len() && pred(#[trigger] s[k]),
{
    if forall|k: int| 0 <= k < s.len() ==> !pred(#[trigger] s[k]) {
        lemma_count_none(s, pred);
    }
}

/// The distinct quotient points (prime supports) met by the nonzero points of `s`.
pub open spec fn supports_met(s: Seq<Gz>) -> Set<Set<Gz>> {
    Set::new(
        |x: Set<Gz>|
            exists|k: int| 0 <= k < s.len() && s[k] != gzero() && prime_divisors(#[trigger] s[k]) == x,
    )
}

/// A class census lists each distinct quotient point met once: it has as many entries
/// as there are distinct prime supports among the nonzero points.
pub proof fn lemma_census_counts_distinct_supports(classes: Seq<WindowClass>, s: Seq<Gz>)
    requires
        is_class_census(classes, s),
    ensures
        supports_met(s).finite(),
        classes.len() == supports_met(s).len(),
{
    let sets = Seq::new(classes.len(), |i: int| support_set(class_key(classes[i])));
    assert forall|i: int, j: int|
        0 <= i < sets.len() && 0 <= j < sets.len() && i != j implies sets[i] != sets[j] by {
        let (a, b) = if i < j {
            (i, j)
        } else {
            (j, i)
        };
        assert(seq_lex_lt(class_key(classes[a]), class_key(classes[b])));
        lemma_seq_lex_irreflexive(class_key(classes[a]));
        assert(strictly_sorted(class_key(classes[a])) && strictly_sorted(class_key(classes[b])));
        lemma_key_sets_differ(class_key(classes[a]), class_key(classes[b]));
    }
    assert(sets.no_duplicates());
    assert forall|x: Set<Gz>| #[trigger] sets.to_set().contains(x) <==> supports_met(s).contains(x) by {
        if sets.to_set().contains(x) {
            let i = choose|i: int| 0 <= i < sets.len() && sets[i] == x;
            let key = class_key(classes[i]);
            assert(classes[i].count >= 1);
            lemma_count_witness(s, with_support(key));
            let k = choose|k: int| 0 <= k < s.len() && with_support(key)(#[trigger] s[k]);
            assert(s[k] != gzero() && prime_divisors(s[k]) == x);
        }
        if supports_met(s).contains(x) {
            let k = choose|k: int|
                0 <= k < s.len() && s[k] != gzero() && prime_divisors(#[trigger] s[k]) == x;
            let i = choose|i: int|
                #![trigger classes[i]]
                0 <= i < classes.len() && support_set(class_key(classes[i])) == prime_divisors(s[k]);
            assert(sets[i] == x);
        }
    }
    assert(sets.to_set() =~= supports_met(s));
    sets.unique_seq_to_set();
}

/// The census of the square window of radius `radius` for the basic open
/// `sigma_index`: the nonzero points, those in `sigma_index`, and the distinct
/// quotient points (prime supports) in increasing order with their multiplicities.
/// The window holds `(2 * radius + 1)^2 - 1` nonzero points.
///
/// Fails with `ZeroOutsideTopology` for a zero index, and otherwise with the error of
/// the first point, row by row, whose coprimality test with the index fails.
pub fn window_census(radius: i64, index: GaussianInt) -> (r: Result<WindowCensus, GaussianError>)
    requires
        0 <= radius <= MAX_WINDOW_RADIUS,
    ensures
        index@ == gzero() ==> r == Err::<WindowCensus, GaussianError>(
            GaussianError::ZeroOutsideTopology,
        ),
        index@ != gzero() ==> match first_gcd_error(index@, window_square(radius as int)) {
            Some(e) => r == Err::<WindowCensus, GaussianError>(e),
            None => r matches Ok(c) && is_census_of(c, index@, window_square(radius as int))
                && c.members <= c.points && c.points == (2 * radius + 1) * (2 * radius + 1) - 1,
        },
{
    if index.is_zero() {
        return Err(GaussianError::ZeroOutsideTopology);
    }
    let ghost rr = radius as int;
    let ghost n = 2 * rr + 1;
    let mut points: u64 = 0;
    let mut members: u64 = 0;
    let mut classes: Vec<WindowClass> = Vec::new();
    let ghost mut seen: Seq<Gz> = Seq::empty();
    let mut re: i64 = -radius;
    while re <= radius
        invariant
            0 <= radius <= MAX_WINDOW_RADIUS,
            rr == radius,
            n == 2 * rr + 1,
            index@ != gzero(),
            -radius <= re <= radius + 1,
            seen == window_rows(rr, (re + rr) as nat),
            points == count_where(seen, nonzero_point()),
            members == count_where(seen, in_basic_open(index@)),
            is_class_census(classes@, seen),
            first_gcd_error(index@, seen) is None,
        decreases radius + 1 - re,
    {
        let ghost row = window_row(re as int, rr);
        let ghost before = seen;
        proof {
            lemma_rows_len(rr, (re + rr) as nat);
            assert(row.take(0) =~= Seq::<Gz>::empty());
            assert(seen =~= before + row.take(0));
        }
        let mut im: i64 = -radius;
        while im <= radius
            invariant
                0 <= radius <= MAX_WINDOW_RADIUS,
                rr == radius,
                n == 2 * rr + 1,
                index@ != gzero(),
                -radius <= re <= radius,
                -radius <= im <= radius + 1,
                before == window_rows(rr, (re + rr) as nat),
                before.len() == (re + rr) * n,
                row == window_row(re as int, rr),
                seen == before + row.take(im + rr),
                points == count_where(seen, nonzero_point()),
                members == count_where(seen, in_basic_open(index@)),
                is_class_census(classes@, seen),
                first_gcd_error(index@, seen) is None,
            decreases radius + 1 - im,
        {
            let point = GaussianInt::new(re, im);
            proof {
                assert(row[im + rr] == point@);
                assert(row.take(im + rr + 1) =~= row.take(im + rr).push(point@));
                assert(seen.push(point@) =~= before + row.take(im + rr + 1));
                lemma_count_push(seen, point@, nonzero_point());
                lemma_count_push(seen, point@, in_basic_open(index@));
                lemma_first_error_push(index@, seen, point@);
                lemma_count_bound(seen, nonzero_point());
                lemma_count_bound(seen, in_basic_open(index@));
                assert(seen.len() < 1_000_000) by (nonlinear_arith)
                    requires
                        seen.len() == before.len() + (im + rr),
                        before.len() == (re + rr) * n,
                        n == 2 * rr + 1,
                        0 <= re + rr <= 2 * rr,
                        0 <= im + rr <= 2 * rr,
                        rr <= 100,
                ;
            }
            if !point.is_zero() {
                let member = match sigma_contains(index, point) {
                    Ok(b) => b,
                    Err(e) => {
                        proof {
                            // the failing point and the rest of the window follow `seen`
                            let t = lemma_rows_prefix(rr, (re + rr) as nat, n as nat);
                            let rest = row.skip(im + rr + 1) + t;
                            assert(window_rows(rr, (re + rr + 1) as nat) =~= before + row);
                            assert(window_square(rr) =~= seen.push(point@) + rest);
                            lemma_first_error_prefix(index@, seen.push(point@), rest);
                        }
                        return Err(e);
                    },
                };
                points = points + 1;
                if member {
                    members = members + 1;
                }
                proof {
                    assert(gnorm(point@) <= 20000) by (nonlinear_arith)
                        requires
                            -100 <= re <= 100,
                            -100 <= im <= 100,
                            point@ == (re as int, im as int),
                    ;
                }
                let support = match prime_support(point) {
                    Ok(v) => v,
                    Err(e) => return Err(e),
                };
                record_support(&mut classes, support, Ghost(seen), Ghost(point@));
            } else {
                proof {
                    lemma_census_push_zero(classes@, seen);
                }
            }
            proof {
                seen = seen.push(point@);
            }
            im = im + 1;
        }
        proof {
            assert(row.take(n) =~= row);
            assert(window_rows(rr, (re + rr + 1) as nat) =~= before + row);
        }
        re = re + 1;
    }
    proof {
        lemma_count_monotone(seen, in_basic_open(index@), nonzero_point());
        lemma_window_point_count(rr);
    }
    Ok(WindowCensus { points, members, classes })
}

} // verus!
