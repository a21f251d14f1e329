use vstd::prelude::*;
use vstd::std_specs::iter::IteratorSpec;

verus! {

broadcast use vstd::string::group_string_axioms;

/// `c` occurs in `s`.
pub open spec fn has_char(s: Seq<char>, c: char) -> bool {
    exists|i: int| 0 <= i < s.len() && s[i] == c
}

/// `s` holds two consecutive dots.
pub open spec fn has_dotdot(s: Seq<char>) -> bool {
    exists|i: int| #[trigger] dotdot_at(s, i)
}

/// Two dots start at position `i` of `s`.
pub open spec fn dotdot_at(s: Seq<char>, i: int) -> bool {
    0 <= i && i + 1 < s.len() && s[i] == '.' && s[i + 1] == '.'
}

/// The characters of a string, in order.
pub fn chars_of(s: &str) -> (v: Vec<char>)
    ensures
        v@ == s@,
{
    let mut v: Vec<char> = Vec::new();
    let mut it = s.chars();
    let ghost total = s@;
    loop
        invariant
            it.remaining() == total.skip(v@.len() as int),
            v@ == total.take(v@.len() as int),
            v@.len() <= total.len(),
            total == s@,
        ensures
            v@ == s@,
        decreases total.len() - v@.len(),
    {
        match it.next() {
            Some(c) => {
                assert(total.skip(v@.len() as int).drop_first() == total.skip(v@.len() + 1 as int));
                v.push(c);
                assert(v@ == total.take(v@.len() as int));
            },
            None => {
                assert(v@ == total);
                break;
            },
        }
    }
    v
}

/// Whether `c` occurs in `s`.
pub fn vec_has_char(s: &Vec<char>, c: char) -> (b: bool)
    ensures
        b == has_char(s@, c),
{
    let mut i: usize = 0;
    while i < s.len()
        invariant
            i <= s@.len(),
            forall|j: int| 0 <= j < i ==> s@[j] != c,
        decreases s@.len() - i,
    {
        if s[i] == c {
            return true;
        }
        i = i + 1;
    }
    false
}

/// Whether `s` holds two consecutive dots.
pub fn vec_has_dotdot(s: &Vec<char>) -> (b: bool)
    ensures
        b == has_dotdot(s@),
{
    let mut i: usize = 0;
    while i < s.len() && i + 1 < s.len()
        invariant
            i <= s@.len(),
            forall|j: int| 0 <= j < i ==> !#[trigger] dotdot_at(s@, j),
        decreases s@.len() - i,
    {
        if s[i] == '.' && s[i + 1] == '.' {
            assert(dotdot_at(s@, i as int));
            return true;
        }
        i = i + 1;
    }
    false
}

} // verus!

verus! {

/// What `format!("{:?}", s)` gives for a string: its quoted, escaped form.
pub uninterp spec fn debug_str(s: Seq<char>) -> Seq<char>;

/// Wraps the `Debug` formatting of a string (`format!("{:?}", s)`); the
/// result is named, not described.
#[verifier::external_body]
pub(crate) fn debug_string(s: &str) -> (r: String)
    ensures
        r@ == debug_str(s@),
{
    format!("{:?}", s)
}

} // verus!

verus! {

/// `a` comes strictly before `b` in lexicographic order by code point, the
/// order of `str`'s comparison (UTF-8 keeps code point order).
pub open spec fn seq_lt(a: Seq<char>, b: Seq<char>) -> bool
    decreases a.len(),
{
    if b.len() == 0 {
        false
    } else if a.len() == 0 {
        true
    } else if a[0] < b[0] {
        true
    } else if a[0] == b[0] {
        seq_lt(a.drop_first(), b.drop_first())
    } else {
        false
    }
}

pub proof fn lemma_seq_lt_irreflexive(a: Seq<char>)
    ensures
        !seq_lt(a, a),
    decreases a.len(),
{
    if a.len() > 0 {
        lemma_seq_lt_irreflexive(a.drop_first());
    }
}

pub proof fn lemma_seq_lt_transitive(a: Seq<char>, b: Seq<char>, c: Seq<char>)
    requires
        seq_lt(a, b),
        seq_lt(b, c),
    ensures
        seq_lt(a, c),
    decreases a.len(),
{
    if a.len() > 0 && b.len() > 0 && c.len() > 0 {
        if a[0] == b[0] && b[0] == c[0] {
            lemma_seq_lt_transitive(a.drop_first(), b.drop_first(), c.drop_first());
        }
    }
}

pub proof fn lemma_seq_lt_total(a: Seq<char>, b: Seq<char>)
    ensures
        seq_lt(a, b) || seq_lt(b, a) || a == b,
    decreases a.len(),
{
    if a.len() > 0 && b.len() > 0 {
        if a[0] == b[0] {
            lemma_seq_lt_total(a.drop_first(), b.drop_first());
            if a.drop_first() == b.drop_first() {
                assert(a =~= seq![a[0]] + a.drop_first());
                assert(b =~= seq![b[0]] + b.drop_first());
            }
        } else {
        }
    } else if a.len() == 0 && b.len() == 0 {
        assert(a =~= b);
    }
}

/// Whether `a` comes strictly before `b`.
pub fn chars_lt(a: &Vec<char>, b: &Vec<char>) -> (r: bool)
    ensures
        r == seq_lt(a@, b@),
{
    let mut i: usize = 0;
    proof {
        assert(a@.skip(0) =~= a@);
        assert(b@.skip(0) =~= b@);
    }
    while i < a.len() && i < b.len()
        invariant
            i <= a@.len(),
            i <= b@.len(),
            seq_lt(a@, b@) == seq_lt(a@.skip(i as int), b@.skip(i as int)),
        decreases a@.len() - i,
    {
        let ca = a[i];
        let cb = b[i];
        proof {
            assert(a@.skip(i as int)[0] == ca);
            assert(b@.skip(i as int)[0] == cb);
            assert(a@.skip(i as int).drop_first() =~= a@.skip(i + 1 as int));
            assert(b@.skip(i as int).drop_first() =~= b@.skip(i + 1 as int));
        }
        if ca < cb {
            return true;
        }
        if ca != cb {
            return false;
        }
        i = i + 1;
    }
    i == a.len() && i < b.len()
}

/// Index `i` comes before index `j` when sorting by name, ties kept in
/// index order.
pub open spec fn key_lt(names: Seq<Seq<char>>, i: usize, j: usize) -> bool {
    seq_lt(names[i as int], names[j as int]) || (names[i as int] == names[j as int] && i < j)
}

/// `order` lists every index of `names` once, sorted by name and, among
/// equal names, by index: the order of a stable sort by name.
pub open spec fn is_stable_name_order(names: Seq<Seq<char>>, order: Seq<usize>) -> bool {
    &&& order.len() == names.len()
    &&& forall|i: int, j: int| 0 <= i < j < order.len() ==> key_lt(names, #[trigger] order[i], #[trigger] order[j])
    &&& forall|v: usize| v < names.len() ==> #[trigger] order.contains(v)
    &&& all_below_len(order, names.len())
}

pub open spec fn all_below_len(s: Seq<usize>, n: nat) -> bool {
    forall|j: int| 0 <= j < s.len() ==> (#[trigger] s[j]) < n
}

/// The indices of `names` in the order of a stable sort by name.
pub fn stable_name_order(names: &Vec<String>) -> (order: Vec<usize>)
    ensures
        is_stable_name_order(names@.map_values(|s: String| s@), order@),
{
    let ghost nv = names@.map_values(|s: String| s@);
    let n = names.len();
    let mut keys: Vec<Vec<char>> = Vec::new();
    let mut i: usize = 0;
    while i < n
        invariant
            n == names@.len(),
            nv == names@.map_values(|s: String| s@),
            i <= n,
            keys@.len() == i,
            forall|k: int| 0 <= k < i ==> (#[trigger] keys@[k])@ == nv[k],
        decreases n - i,
    {
        keys.push(chars_of(names[i].as_str()));
        i = i + 1;
    }
    let mut order: Vec<usize> = Vec::new();
    let mut i: usize = 0;
    while i < n
        invariant
            n == names@.len(),
            nv == names@.map_values(|s: String| s@),
            keys@.len() == n,
            forall|k: int| 0 <= k < n ==> (#[trigger] keys@[k])@ == nv[k],
            i <= n,
            order@.len() == i,
            forall|a: int, b: int| 0 <= a < b < order@.len() ==> key_lt(nv, #[trigger] order@[a], #[trigger] order@[b]),
            forall|v: usize| v < i ==> #[trigger] order@.contains(v),
            forall|j: int| 0 <= j < order@.len() ==> (#[trigger] order@[j]) < i,
        decreases n - i,
    {
        // insert i after every entry whose name is not greater than its own
        let mut p: usize = 0;
        while p < order.len() && !chars_lt(&keys[i], &keys[order[p]])
            invariant
                n == names@.len(),
                i < n,
                keys@.len() == n,
                forall|k: int| 0 <= k < n ==> (#[trigger] keys@[k])@ == nv[k],
                p <= order@.len(),
                forall|j: int| 0 <= j < order@.len() ==> (#[trigger] order@[j]) < i,
                forall|k: int| 0 <= k < p ==> !seq_lt(nv[i as int], nv[#[trigger] order@[k] as int]),
            decreases order@.len() - p,
        {
            p = p + 1;
        }
        let ghost before = order@;
        order.insert(p, i);
        proof {
            assert(order@ == before.insert(p as int, i));
            // entries before p are not greater than i: they come first
            assert forall|k: int| 0 <= k < p implies key_lt(nv, #[trigger] before[k], i) by {
                assert(!seq_lt(nv[i as int], nv[before[k] as int]));
                lemma_seq_lt_total(nv[i as int], nv[before[k] as int]);
            }
            // entries from p on are greater than i
            assert forall|k: int| p <= k < before.len() implies key_lt(nv, i, #[trigger] before[k]) by {
                if k == p {
                    assert(seq_lt(nv[i as int], nv[before[p as int] as int]));
                } else {
                    assert(key_lt(nv, before[p as int], before[k]));
                    assert(seq_lt(nv[i as int], nv[before[p as int] as int]));
                    if seq_lt(nv[before[p as int] as int], nv[before[k] as int]) {
                        lemma_seq_lt_transitive(nv[i as int], nv[before[p as int] as int], nv[before[k] as int]);
                    }
                }
            }
            assert forall|a: int, b: int| 0 <= a < b < order@.len() implies key_lt(nv, #[trigger] order@[a], #[trigger] order@[b]) by {
                if b < p {
                } else if a > p {
                    assert(order@[a] == before[a - 1]);
                    assert(order@[b] == before[b - 1]);
                } else if a == p {
                    assert(order@[b] == before[b - 1]);
                } else if b == p {
                } else {
                    assert(order@[b] == before[b - 1]);
                }
            }
            assert forall|v: usize| v < i + 1 implies #[trigger] order@.contains(v) by {
                if v == i {
                    assert(order@[p as int] == i);
                } else {
                    assert(before.contains(v));
                    let k = choose|k: int| 0 <= k < before.len() && before[k] == v;
                    if k < p {
                        assert(order@[k] == v);
                    } else {
                        assert(order@[k + 1] == v);
                    }
                }
            }
            assert forall|j: int| 0 <= j < order@.len() implies (#[trigger] order@[j]) < i + 1 by {
                if j < p {
                } else if j > p {
                    assert(order@[j] == before[j - 1]);
                }
            }
        }
        i = i + 1;
    }
    order
}

} // verus!

verus! {

/// The character of a decimal digit.
pub open spec fn digit_char(d: nat) -> char {
    if d == 0 { '0' }
    else if d == 1 { '1' }
    else if d == 2 { '2' }
    else if d == 3 { '3' }
    else if d == 4 { '4' }
    else if d == 5 { '5' }
    else if d == 6 { '6' }
    else if d == 7 { '7' }
    else if d == 8 { '8' }
    else { '9' }
}

/// The decimal form of `n`, without leading zeros.
pub open spec fn decimal(n: nat) -> Seq<char>
    decreases n,
{
    if n < 10 {
        seq![digit_char(n)]
    } else {
        decimal(n / 10) + seq![digit_char(n % 10)]
    }
}

/// Wraps `u64::to_string`, which writes a number in decimal without
/// leading zeros.
#[verifier::external_body]
pub(crate) fn u64_to_string(n: u64) -> (s: String)
    ensures
        s@ == decimal(n as nat),
{
    n.to_string()
}

/// Wraps `usize::to_string`, which writes a number in decimal without
/// leading zeros.
#[verifier::external_body]
pub(crate) fn usize_to_string(n: usize) -> (s: String)
    ensures
        s@ == decimal(n as nat),
{
    n.to_string()
}

} // verus!
