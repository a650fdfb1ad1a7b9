//! The order of siblings in the tree view: directories first, then by name,
//! byte by byte.

use crate::entry::{model_is_dir, models, RawEntry, RawEntryModel};
use vstd::prelude::*;
use vstd::seq_lib::to_multiset_insert;

verus! {

/// `a` precedes `b`, decided at index `k`: the two agree before `k`, and at
/// `k` either `a` has ended while `b` goes on, or `a` holds the smaller byte.
pub open spec fn precedes_at(a: Seq<u8>, b: Seq<u8>, k: int) -> bool {
    &&& 0 <= k <= a.len()
    &&& k < b.len()
    &&& forall|i: int| 0 <= i < k ==> a[i] == b[i]
    &&& k < a.len() ==> a[k] < b[k]
}

/// Lexicographic order on names, by unsigned byte value; a proper prefix
/// precedes what it is a prefix of.
pub open spec fn bytes_less(a: Seq<u8>, b: Seq<u8>) -> bool {
    exists|k: int| precedes_at(a, b, k)
}

/// Tree order: a directory precedes whatever is not one; two directories, or
/// two others, go by name.
pub open spec fn tree_before(x: RawEntryModel, y: RawEntryModel) -> bool {
    if model_is_dir(x) != model_is_dir(y) {
        model_is_dir(x)
    } else {
        bytes_less(x.name, y.name)
    }
}

/// No entry comes after one that should follow it.
pub open spec fn tree_sorted(s: Seq<RawEntryModel>) -> bool {
    forall|i: int, j: int| 0 <= i < j < s.len() ==> !tree_before(s[j], s[i])
}

/// How many entries at the front of `s` precede `e`: the index at which
/// `e` is put into `s`.
pub open spec fn place_of(s: Seq<RawEntryModel>, e: RawEntryModel) -> int
    decreases s.len(),
{
    if s.len() > 0 && tree_before(s[0], e) {
        1 + place_of(s.drop_first(), e)
    } else {
        0
    }
}

/// The entries in tree order. Each entry is put before the first of those
/// after it that does not precede it, so entries that compare equal keep
/// the order they came in.
pub open spec fn tree_sort(s: Seq<RawEntryModel>) -> Seq<RawEntryModel>
    decreases s.len(),
{
    if s.len() == 0 {
        s
    } else {
        let rest = tree_sort(s.drop_first());
        rest.insert(place_of(rest, s[0]), s[0])
    }
}

/// Of two names at most one precedes the other.
pub proof fn lemma_bytes_less_asymmetric(a: Seq<u8>, b: Seq<u8>)
    ensures
        !(bytes_less(a, b) && bytes_less(b, a)),
{
    if bytes_less(a, b) && bytes_less(b, a) {
        let k1 = choose|k: int| precedes_at(a, b, k);
        let k2 = choose|k: int| precedes_at(b, a, k);
        if k1 < k2 {
            assert(b[k1] == a[k1]);
        } else if k2 < k1 {
            assert(a[k2] == b[k2]);
        }
    }
}

/// A name that precedes a second precedes all that the second precedes.
pub proof fn lemma_bytes_less_transitive(a: Seq<u8>, b: Seq<u8>, c: Seq<u8>)
    requires
        bytes_less(a, b),
        bytes_less(b, c),
    ensures
        bytes_less(a, c),
{
    let k1 = choose|k: int| precedes_at(a, b, k);
    let k2 = choose|k: int| precedes_at(b, c, k);
    if k1 <= k2 {
        assert(precedes_at(a, c, k1));
    } else {
        assert(a[k2] == b[k2]);
        assert(precedes_at(a, c, k2));
    }
}

proof fn lemma_scan(a: Seq<u8>, b: Seq<u8>, k: int)
    requires
        0 <= k <= a.len(),
        k <= b.len(),
        forall|i: int| 0 <= i < k ==> a[i] == b[i],
    ensures
        a == b || bytes_less(a, b) || bytes_less(b, a),
    decreases a.len() - k,
{
    if k == a.len() && k == b.len() {
        assert(a =~= b);
    } else if k == a.len() {
        assert(precedes_at(a, b, k));
    } else if k == b.len() {
        assert(precedes_at(b, a, k));
    } else if a[k] < b[k] {
        assert(precedes_at(a, b, k));
    } else if b[k] < a[k] {
        assert(precedes_at(b, a, k));
    } else {
        lemma_scan(a, b, k + 1);
    }
}

/// Of two different names one precedes the other.
pub proof fn lemma_bytes_less_total(a: Seq<u8>, b: Seq<u8>)
    ensures
        a == b || bytes_less(a, b) || bytes_less(b, a),
{
    lemma_scan(a, b, 0);
}

/// Where `a` does not precede `b` and `b` does not precede `c`, `a` does not
/// precede `c`.
pub proof fn lemma_bytes_not_less_chain(a: Seq<u8>, b: Seq<u8>, c: Seq<u8>)
    requires
        !bytes_less(a, b),
        !bytes_less(b, c),
    ensures
        !bytes_less(a, c),
{
    lemma_bytes_less_total(a, b);
    lemma_bytes_less_total(b, c);
    if bytes_less(a, c) {
        if a == b {
        } else if b == c {
        } else {
            lemma_bytes_less_transitive(c, b, a);
            lemma_bytes_less_asymmetric(a, c);
        }
    }
}

/// Where `x` does not come before `y` and `y` does not come before `z`, `x`
/// does not come before `z`.
pub proof fn lemma_tree_not_before_chain(x: RawEntryModel, y: RawEntryModel, z: RawEntryModel)
    requires
        !tree_before(x, y),
        !tree_before(y, z),
    ensures
        !tree_before(x, z),
{
    if model_is_dir(x) == model_is_dir(y) && model_is_dir(y) == model_is_dir(z) {
        lemma_bytes_not_less_chain(x.name, y.name, z.name);
    }
}

/// Whether name `a` comes before name `b`.
pub fn name_precedes(a: &Vec<u8>, b: &Vec<u8>) -> (before: bool)
    ensures
        before == bytes_less(a@, b@),
{
    let mut i: usize = 0;
    while i < a.len() && i < b.len() && a[i] == b[i]
        invariant
            i <= a.len(),
            i <= b.len(),
            forall|j: int| 0 <= j < i ==> a@[j] == b@[j],
        decreases a.len() - i,
    {
        i += 1;
    }
    if i == b.len() {
        assert forall|k: int| !precedes_at(a@, b@, k) by {}
        false
    } else if i == a.len() {
        assert(precedes_at(a@, b@, i as int));
        true
    } else if a[i] < b[i] {
        assert(precedes_at(a@, b@, i as int));
        true
    } else {
        assert forall|k: int| !precedes_at(a@, b@, k) by {
            if k > i {
                assert(a@[i as int] != b@[i as int]);
            }
        }
        false
    }
}

/// Whether entry `x` comes before entry `y` in the tree view.
pub fn entry_precedes(x: &RawEntry, y: &RawEntry) -> (before: bool)
    ensures
        before == tree_before(x@, y@),
{
    let x_dir = x.is_dir();
    let y_dir = y.is_dir();
    if x_dir != y_dir {
        x_dir
    } else {
        name_precedes(&x.name, &y.name)
    }
}

/// Of two entries at most one comes before the other.
pub proof fn lemma_tree_before_asymmetric(x: RawEntryModel, y: RawEntryModel)
    ensures
        !(tree_before(x, y) && tree_before(y, x)),
{
    lemma_bytes_less_asymmetric(x.name, y.name);
}

/// An entry that comes before a second comes before all that the second
/// comes before.
pub proof fn lemma_tree_before_transitive(x: RawEntryModel, y: RawEntryModel, z: RawEntryModel)
    requires
        tree_before(x, y),
        tree_before(y, z),
    ensures
        tree_before(x, z),
{
    if model_is_dir(x) == model_is_dir(y) && model_is_dir(y) == model_is_dir(z) {
        lemma_bytes_less_transitive(x.name, y.name, z.name);
    }
}

/// What `place_of` finds: every entry before the place precedes `e`, and
/// the entry at the place, if there is one, does not.
pub proof fn lemma_place_of(s: Seq<RawEntryModel>, e: RawEntryModel)
    ensures
        0 <= place_of(s, e) <= s.len(),
        forall|j: int| 0 <= j < place_of(s, e) ==> tree_before(#[trigger] s[j], e),
        place_of(s, e) < s.len() ==> !tree_before(s[place_of(s, e)], e),
    decreases s.len(),
{
    if s.len() > 0 && tree_before(s[0], e) {
        let t = s.drop_first();
        lemma_place_of(t, e);
        assert forall|j: int| 0 <= j < place_of(s, e) implies tree_before(#[trigger] s[j], e) by {
            if j > 0 {
                assert(s[j] == t[j - 1]);
            }
        }
        if place_of(s, e) < s.len() {
            assert(s[place_of(s, e)] == t[place_of(t, e)]);
        }
    }
}

proof fn lemma_insert_keeps_sorted(s: Seq<RawEntryModel>, pos: int, e: RawEntryModel)
    requires
        tree_sorted(s),
        0 <= pos <= s.len(),
        forall|j: int| 0 <= j < pos ==> tree_before(#[trigger] s[j], e),
        pos < s.len() ==> !tree_before(s[pos], e),
    ensures
        tree_sorted(s.insert(pos, e)),
{
    let t = s.insert(pos, e);
    assert forall|i: int, j: int| 0 <= i < j < t.len() implies !tree_before(t[j], t[i]) by {
        if i == pos {
            assert(t[j] == s[j - 1]);
            if j - 1 > pos {
                lemma_tree_not_before_chain(s[j - 1], s[pos], e);
            }
        } else if j == pos {
            assert(t[i] == s[i]);
            assert(tree_before(s[i], e));
            lemma_tree_before_asymmetric(s[i], e);
        } else {
            let si = if i < pos { i } else { i - 1 };
            let sj = if j < pos { j } else { j - 1 };
            assert(t[i] == s[si]);
            assert(t[j] == s[sj]);
        }
    }
}

/// The place in a sorted list where `e` goes.
fn insertion_point(sorted: &Vec<RawEntry>, e: &RawEntry) -> (pos: usize)
    ensures
        pos == place_of(models(sorted@), e@),
        pos <= sorted.len(),
{
    let ghost s = models(sorted@);
    let mut pos: usize = 0;
    assert(s.skip(0) =~= s);
    while pos < sorted.len() && entry_precedes(&sorted[pos], e)
        invariant
            pos <= sorted.len(),
            s == models(sorted@),
            place_of(s, e@) == pos + place_of(s.skip(pos as int), e@),
        decreases sorted.len() - pos,
    {
        proof {
            assert(s.skip(pos as int)[0] == sorted@[pos as int]@);
            assert(s.skip(pos as int).drop_first() =~= s.skip(pos + 1));
        }
        pos += 1;
    }
    proof {
        if pos < sorted.len() {
            assert(s.skip(pos as int)[0] == sorted@[pos as int]@);
        }
        lemma_place_of(s, e@);
    }
    pos
}

/// The entries in tree order.
pub fn sort_tree_order(entries: Vec<RawEntry>) -> (sorted: Vec<RawEntry>)
    ensures
        models(sorted@) == tree_sort(models(entries@)),
{
    let ghost input = models(entries@);
    let mut rest = entries;
    let mut sorted: Vec<RawEntry> = Vec::new();
    proof {
        assert(input.skip(rest.len() as int) =~= Seq::empty());
        assert(models(sorted@) =~= Seq::empty());
        assert(models(rest@) =~= input.take(rest.len() as int));
    }
    while rest.len() > 0
        invariant
            rest.len() <= input.len(),
            models(rest@) == input.take(rest.len() as int),
            models(sorted@) == tree_sort(input.skip(rest.len() as int)),
        decreases rest.len(),
    {
        let ghost before_rest = models(rest@);
        let ghost before_sorted = models(sorted@);
        let e = rest.pop().unwrap();
        let pos = insertion_point(&sorted, &e);
        proof {
            let n = rest.len() as int;
            assert(models(rest@) =~= before_rest.drop_last());
            assert(before_rest.last() == e@);
            assert(models(rest@) =~= input.take(n));
            assert(input.skip(n)[0] == e@);
            assert(input.skip(n).drop_first() =~= input.skip(n + 1));
        }
        sorted.insert(pos, e);
        assert(models(sorted@) =~= before_sorted.insert(pos as int, e@));
    }
    assert(input.skip(0) =~= input);
    sorted
}

/// A sorted sequence holds its entries in tree order.
pub proof fn lemma_tree_sort_sorted(s: Seq<RawEntryModel>)
    ensures
        tree_sorted(tree_sort(s)),
    decreases s.len(),
{
    if s.len() > 0 {
        let rest = tree_sort(s.drop_first());
        lemma_tree_sort_sorted(s.drop_first());
        lemma_place_of(rest, s[0]);
        lemma_insert_keeps_sorted(rest, place_of(rest, s[0]), s[0]);
    }
}

/// Sorting neither drops nor adds nor changes an entry.
pub proof fn lemma_tree_sort_permutes(s: Seq<RawEntryModel>)
    ensures
        tree_sort(s).to_multiset() == s.to_multiset(),
        tree_sort(s).len() == s.len(),
    decreases s.len(),
{
    broadcast use vstd::seq_lib::group_to_multiset_ensures;

    if s.len() > 0 {
        let rest = tree_sort(s.drop_first());
        lemma_tree_sort_permutes(s.drop_first());
        lemma_place_of(rest, s[0]);
        to_multiset_insert(rest, place_of(rest, s[0]), s[0]);
        assert(s.remove(0) =~= s.drop_first());
        assert(s.to_multiset().remove(s[0]).insert(s[0]) =~= s.to_multiset());
        assert(tree_sort(s).to_multiset() =~= s.to_multiset());
    }
}

/// Entries that are in tree order already stay as they are.
pub proof fn lemma_tree_sort_keeps_sorted(s: Seq<RawEntryModel>)
    requires
        tree_sorted(s),
    ensures
        tree_sort(s) == s,
    decreases s.len(),
{
    if s.len() > 0 {
        let t = s.drop_first();
        assert forall|i: int, j: int| 0 <= i < j < t.len() implies !tree_before(t[j], t[i]) by {
            assert(t[i] == s[i + 1] && t[j] == s[j + 1]);
        }
        lemma_tree_sort_keeps_sorted(t);
        if t.len() > 0 {
            assert(t[0] == s[1]);
        }
        assert(place_of(t, s[0]) == 0);
        assert(t.insert(0, s[0]) =~= s);
    }
}

/// Sorting twice gives what sorting once gives.
pub proof fn lemma_tree_sort_idempotent(s: Seq<RawEntryModel>)
    ensures
        tree_sort(tree_sort(s)) == tree_sort(s),
{
    lemma_tree_sort_sorted(s);
    lemma_tree_sort_keeps_sorted(tree_sort(s));
}

/// Tree order is a strict total order on entries with different names: no
/// entry precedes itself, of two entries with different names exactly one
/// precedes the other, and precedence carries over a chain. Between a
/// directory and an entry that is none the directory precedes; between two
/// of a kind the one whose name is smaller byte by byte.
pub proof fn lemma_tree_order_strict_total(x: RawEntryModel, y: RawEntryModel, z: RawEntryModel)
    ensures
        !tree_before(x, x),
        x.name != y.name ==> (tree_before(x, y) <==> !tree_before(y, x)),
        tree_before(x, y) && tree_before(y, z) ==> tree_before(x, z),
        model_is_dir(x) && !model_is_dir(y) ==> tree_before(x, y),
        model_is_dir(x) == model_is_dir(y) ==> (tree_before(x, y) <==> bytes_less(x.name, y.name)),
{
    lemma_tree_before_asymmetric(x, x);
    lemma_tree_before_asymmetric(x, y);
    lemma_bytes_less_total(x.name, y.name);
    if tree_before(x, y) && tree_before(y, z) {
        lemma_tree_before_transitive(x, y, z);
    }
}

/// In sorted entries with different names each entry precedes all that
/// follow it: every directory stands before every other entry, and within
/// each of the two groups the names ascend.
pub proof fn lemma_sorted_ascends(s: Seq<RawEntryModel>, i: int, j: int)
    requires
        tree_sorted(s),
        0 <= i < j < s.len(),
        s[i].name != s[j].name,
    ensures
        tree_before(s[i], s[j]),
        model_is_dir(s[j]) ==> model_is_dir(s[i]),
{
    lemma_tree_order_strict_total(s[i], s[j], s[j]);
}

} // verus!
