//! A total order on value models. It orders values first by variant, then by
//! content (numerically, lexicographically by characters, or entrywise for
//! collections). The order is what makes map and set representations
//! canonical: well-formed maps keep their entries strictly sorted by key, so
//! two equal maps have equal representations and identical encodings.

use vstd::prelude::*;
use crate::value::{
    entry_models_of, lemma_entry_models_of, lemma_models_of, models_of, Value, ValueModel,
};

verus! {

/// The sign of an integer: -1, 0 or 1.
pub open spec fn sign(i: int) -> int {
    if i < 0 {
        -1
    } else if i > 0 {
        1
    } else {
        0
    }
}

/// The rank of a variant; values of different variants order by rank.
pub open spec fn tag_of(v: ValueModel) -> int {
    match v {
        ValueModel::Int(_) => 0,
        ValueModel::Str(_) => 1,
        ValueModel::Bool(_) => 2,
        ValueModel::MapVal(_) => 3,
        ValueModel::ListVal(_) => 4,
        ValueModel::SetVal(_) => 5,
        ValueModel::Sentinel(_) => 6,
        ValueModel::NoneVal => 7,
    }
}

/// Lexicographic comparison of character sequences.
pub open spec fn cmp_chars(s: Seq<char>, t: Seq<char>) -> int
    decreases s.len(),
{
    if s.len() == 0 && t.len() == 0 {
        0
    } else if s.len() == 0 {
        -1
    } else if t.len() == 0 {
        1
    } else if (s[0] as int) < (t[0] as int) {
        -1
    } else if (s[0] as int) > (t[0] as int) {
        1
    } else {
        cmp_chars(s.skip(1), t.skip(1))
    }
}

/// Total comparison of two value models: -1, 0 or 1.
pub open spec fn cmp_val(a: ValueModel, b: ValueModel) -> int
    decreases a,
{
    if tag_of(a) != tag_of(b) {
        sign(tag_of(a) - tag_of(b))
    } else {
        match (a, b) {
            (ValueModel::Int(x), ValueModel::Int(y)) => if x < y {
                -1
            } else if x > y {
                1
            } else {
                0
            },
            (ValueModel::Str(x), ValueModel::Str(y)) => cmp_chars(x, y),
            (ValueModel::Bool(x), ValueModel::Bool(y)) => if x == y {
                0
            } else if !x {
                -1
            } else {
                1
            },
            (ValueModel::MapVal(x), ValueModel::MapVal(y)) => cmp_entries(x, y),
            (ValueModel::ListVal(x), ValueModel::ListVal(y)) => cmp_seq(x, y),
            (ValueModel::SetVal(x), ValueModel::SetVal(y)) => cmp_seq(x, y),
            (ValueModel::Sentinel(_), ValueModel::Sentinel(_)) => 0,
            _ => 0,
        }
    }
}

/// Lexicographic comparison of value sequences.
pub open spec fn cmp_seq(x: Seq<ValueModel>, y: Seq<ValueModel>) -> int
    decreases x,
{
    if x.len() == 0 && y.len() == 0 {
        0
    } else if x.len() == 0 {
        -1
    } else if y.len() == 0 {
        1
    } else {
        let c = cmp_val(x[0], y[0]);
        if c != 0 {
            c
        } else {
            cmp_seq(x.skip(1), y.skip(1))
        }
    }
}

/// Lexicographic comparison of entry sequences, each entry by key then value.
pub open spec fn cmp_entries(
    x: Seq<(ValueModel, ValueModel)>,
    y: Seq<(ValueModel, ValueModel)>,
) -> int
    decreases x,
{
    if x.len() == 0 && y.len() == 0 {
        0
    } else if x.len() == 0 {
        -1
    } else if y.len() == 0 {
        1
    } else {
        let c = cmp_val(x[0].0, y[0].0);
        if c != 0 {
            c
        } else {
            let d = cmp_val(x[0].1, y[0].1);
            if d != 0 {
                d
            } else {
                cmp_entries(x.skip(1), y.skip(1))
            }
        }
    }
}

/// Entry keys are strictly increasing: keys are unique and the layout is
/// canonical.
pub open spec fn entries_sorted(es: Seq<(ValueModel, ValueModel)>) -> bool {
    forall|i: int, j: int| 0 <= i < j < es.len() ==> cmp_val(es[i].0, es[j].0) < 0
}

/// Elements are strictly increasing: elements are distinct and the layout is
/// canonical.
pub open spec fn vals_sorted(xs: Seq<ValueModel>) -> bool {
    forall|i: int, j: int| 0 <= i < j < xs.len() ==> cmp_val(xs[i], xs[j]) < 0
}

/// A value model is well formed when every map in it is strictly sorted by
/// key and every set is strictly sorted. The constructors establish this.
pub open spec fn wf(v: ValueModel) -> bool
    decreases v,
{
    match v {
        ValueModel::MapVal(es) => entries_sorted(es) && forall|i: int|
            #![auto]
            0 <= i < es.len() ==> wf(es[i].0) && wf(es[i].1),
        ValueModel::ListVal(xs) => forall|i: int| #![auto] 0 <= i < xs.len() ==> wf(xs[i]),
        ValueModel::SetVal(xs) => vals_sorted(xs) && forall|i: int|
            #![auto]
            0 <= i < xs.len() ==> wf(xs[i]),
        _ => true,
    }
}

/// Comparison of character sequences is zero exactly on equal sequences.
pub proof fn lemma_cmp_chars_eq(s: Seq<char>, t: Seq<char>)
    ensures
        (cmp_chars(s, t) == 0) <==> (s == t),
    decreases s.len(),
{
    if s.len() == 0 && t.len() == 0 {
        assert(s =~= t);
    } else if s.len() > 0 && t.len() > 0 {
        lemma_cmp_chars_eq(s.skip(1), t.skip(1));
        if cmp_chars(s, t) == 0 {
            assert(s =~= t) by {
                assert(s.skip(1) == t.skip(1));
                assert forall|i: int| 0 <= i < s.len() implies s[i] == t[i] by {
                    if i > 0 {
                        assert(s.skip(1)[i - 1] == s[i]);
                        assert(t.skip(1)[i - 1] == t[i]);
                    }
                }
            }
        }
        if s == t {
            assert(s.skip(1) == t.skip(1));
        }
    }
}

/// Swapping the arguments negates the comparison of character sequences.
pub proof fn lemma_cmp_chars_flip(s: Seq<char>, t: Seq<char>)
    ensures
        cmp_chars(s, t) == -cmp_chars(t, s),
    decreases s.len(),
{
    if s.len() > 0 && t.len() > 0 {
        lemma_cmp_chars_flip(s.skip(1), t.skip(1));
    }
}

/// The order on character sequences is transitive, strictly so as soon as one
/// premise is strict.
pub proof fn lemma_cmp_chars_trans(s: Seq<char>, t: Seq<char>, u: Seq<char>)
    requires
        cmp_chars(s, t) <= 0,
        cmp_chars(t, u) <= 0,
    ensures
        cmp_chars(s, u) <= 0,
        cmp_chars(s, t) < 0 || cmp_chars(t, u) < 0 ==> cmp_chars(s, u) < 0,
    decreases s.len(),
{
    if cmp_chars(s, t) == 0 {
        lemma_cmp_chars_eq(s, t);
    } else if cmp_chars(t, u) == 0 {
        lemma_cmp_chars_eq(t, u);
    } else if s.len() > 0 {
        if (s[0] as int) == (t[0] as int) && (t[0] as int) == (u[0] as int) {
            lemma_cmp_chars_trans(s.skip(1), t.skip(1), u.skip(1));
        }
    }
}

/// Dropping an equal prefix does not change the comparison.
pub proof fn lemma_cmp_chars_common_prefix(s: Seq<char>, t: Seq<char>, i: int)
    requires
        0 <= i <= s.len(),
        i <= t.len(),
        forall|k: int| 0 <= k < i ==> s[k] == t[k],
    ensures
        cmp_chars(s, t) == cmp_chars(s.skip(i), t.skip(i)),
    decreases i,
{
    if i == 0 {
        assert(s.skip(0) =~= s);
        assert(t.skip(0) =~= t);
    } else {
        assert(s[0] == t[0]);
        assert forall|k: int| 0 <= k < i - 1 implies s.skip(1)[k] == t.skip(1)[k] by {
            assert(s.skip(1)[k] == s[k + 1]);
            assert(t.skip(1)[k] == t[k + 1]);
        }
        lemma_cmp_chars_common_prefix(s.skip(1), t.skip(1), i - 1);
        assert(s.skip(1).skip(i - 1) =~= s.skip(i));
        assert(t.skip(1).skip(i - 1) =~= t.skip(i));
    }
}

/// Comparison of value models is zero exactly on equal models.
pub proof fn lemma_cmp_eq(a: ValueModel, b: ValueModel)
    ensures
        (cmp_val(a, b) == 0) <==> (a == b),
    decreases a,
{
    if tag_of(a) == tag_of(b) {
        match (a, b) {
            (ValueModel::Str(x), ValueModel::Str(y)) => {
                lemma_cmp_chars_eq(x, y);
            },
            (ValueModel::MapVal(x), ValueModel::MapVal(y)) => {
                lemma_cmp_entries_eq(x, y);
            },
            (ValueModel::ListVal(x), ValueModel::ListVal(y)) => {
                lemma_cmp_seq_eq(x, y);
            },
            (ValueModel::SetVal(x), ValueModel::SetVal(y)) => {
                lemma_cmp_seq_eq(x, y);
            },
            (ValueModel::Sentinel(x), ValueModel::Sentinel(y)) => {
                assert(x == y);
            },
            _ => {},
        }
    }
}

/// Comparison of value sequences is zero exactly on equal sequences.
pub proof fn lemma_cmp_seq_eq(x: Seq<ValueModel>, y: Seq<ValueModel>)
    ensures
        (cmp_seq(x, y) == 0) <==> (x == y),
    decreases x,
{
    if x.len() == 0 && y.len() == 0 {
        assert(x =~= y);
    } else if x.len() > 0 && y.len() > 0 {
        lemma_cmp_eq(x[0], y[0]);
        lemma_cmp_seq_eq(x.skip(1), y.skip(1));
        if cmp_seq(x, y) == 0 {
            assert(x =~= y) by {
                assert(x.skip(1) == y.skip(1));
                assert forall|i: int| 0 <= i < x.len() implies x[i] == y[i] by {
                    if i > 0 {
                        assert(x.skip(1)[i - 1] == x[i]);
                        assert(y.skip(1)[i - 1] == y[i]);
                    }
                }
            }
        }
        if x == y {
            assert(x.skip(1) == y.skip(1));
        }
    }
}

/// Comparison of entry sequences is zero exactly on equal sequences.
pub proof fn lemma_cmp_entries_eq(
    x: Seq<(ValueModel, ValueModel)>,
    y: Seq<(ValueModel, ValueModel)>,
)
    ensures
        (cmp_entries(x, y) == 0) <==> (x == y),
    decreases x,
{
    if x.len() == 0 && y.len() == 0 {
        assert(x =~= y);
    } else if x.len() > 0 && y.len() > 0 {
        lemma_cmp_eq(x[0].0, y[0].0);
        lemma_cmp_eq(x[0].1, y[0].1);
        lemma_cmp_entries_eq(x.skip(1), y.skip(1));
        if cmp_entries(x, y) == 0 {
            assert(x =~= y) by {
                assert(x.skip(1) == y.skip(1));
                assert forall|i: int| 0 <= i < x.len() implies x[i] == y[i] by {
                    if i > 0 {
                        assert(x.skip(1)[i - 1] == x[i]);
                        assert(y.skip(1)[i - 1] == y[i]);
                    }
                }
            }
        }
        if x == y {
            assert(x.skip(1) == y.skip(1));
            assert(x[0].0 == y[0].0 && x[0].1 == y[0].1);
        }
    }
}

/// Swapping the arguments negates the comparison of value models.
pub proof fn lemma_cmp_flip(a: ValueModel, b: ValueModel)
    ensures
        cmp_val(a, b) == -cmp_val(b, a),
    decreases a,
{
    if tag_of(a) == tag_of(b) {
        match (a, b) {
            (ValueModel::Str(x), ValueModel::Str(y)) => {
                lemma_cmp_chars_flip(x, y);
            },
            (ValueModel::MapVal(x), ValueModel::MapVal(y)) => {
                lemma_cmp_entries_flip(x, y);
            },
            (ValueModel::ListVal(x), ValueModel::ListVal(y)) => {
                lemma_cmp_seq_flip(x, y);
            },
            (ValueModel::SetVal(x), ValueModel::SetVal(y)) => {
                lemma_cmp_seq_flip(x, y);
            },
            _ => {},
        }
    }
}

/// Swapping the arguments negates the comparison of value sequences.
pub proof fn lemma_cmp_seq_flip(x: Seq<ValueModel>, y: Seq<ValueModel>)
    ensures
        cmp_seq(x, y) == -cmp_seq(y, x),
    decreases x,
{
    if x.len() > 0 && y.len() > 0 {
        lemma_cmp_flip(x[0], y[0]);
        lemma_cmp_seq_flip(x.skip(1), y.skip(1));
    }
}

/// Swapping the arguments negates the comparison of entry sequences.
pub proof fn lemma_cmp_entries_flip(
    x: Seq<(ValueModel, ValueModel)>,
    y: Seq<(ValueModel, ValueModel)>,
)
    ensures
        cmp_entries(x, y) == -cmp_entries(y, x),
    decreases x,
{
    if x.len() > 0 && y.len() > 0 {
        lemma_cmp_flip(x[0].0, y[0].0);
        lemma_cmp_flip(x[0].1, y[0].1);
        lemma_cmp_entries_flip(x.skip(1), y.skip(1));
    }
}

/// The order on value models is transitive, strictly so as soon as one
/// premise is strict.
pub proof fn lemma_cmp_trans(a: ValueModel, b: ValueModel, c: ValueModel)
    requires
        cmp_val(a, b) <= 0,
        cmp_val(b, c) <= 0,
    ensures
        cmp_val(a, c) <= 0,
        cmp_val(a, b) < 0 || cmp_val(b, c) < 0 ==> cmp_val(a, c) < 0,
    decreases a,
{
    if cmp_val(a, b) == 0 {
        lemma_cmp_eq(a, b);
    } else if cmp_val(b, c) == 0 {
        lemma_cmp_eq(b, c);
    } else if tag_of(a) == tag_of(b) && tag_of(b) == tag_of(c) {
        match (a, b, c) {
            (ValueModel::Str(x), ValueModel::Str(y), ValueModel::Str(z)) => {
                lemma_cmp_chars_trans(x, y, z);
            },
            (ValueModel::MapVal(x), ValueModel::MapVal(y), ValueModel::MapVal(z)) => {
                lemma_cmp_entries_trans(x, y, z);
            },
            (ValueModel::ListVal(x), ValueModel::ListVal(y), ValueModel::ListVal(z)) => {
                lemma_cmp_seq_trans(x, y, z);
            },
            (ValueModel::SetVal(x), ValueModel::SetVal(y), ValueModel::SetVal(z)) => {
                lemma_cmp_seq_trans(x, y, z);
            },
            _ => {},
        }
    }
}

/// The order on value sequences is transitive, strictly so as soon as one
/// premise is strict.
pub proof fn lemma_cmp_seq_trans(x: Seq<ValueModel>, y: Seq<ValueModel>, z: Seq<ValueModel>)
    requires
        cmp_seq(x, y) <= 0,
        cmp_seq(y, z) <= 0,
    ensures
        cmp_seq(x, z) <= 0,
        cmp_seq(x, y) < 0 || cmp_seq(y, z) < 0 ==> cmp_seq(x, z) < 0,
    decreases x,
{
    if cmp_seq(x, y) == 0 {
        lemma_cmp_seq_eq(x, y);
    } else if cmp_seq(y, z) == 0 {
        lemma_cmp_seq_eq(y, z);
    } else if x.len() > 0 {
        // y and z are nonempty: a strict comparison against an empty right side
        // is impossible.
        let c1 = cmp_val(x[0], y[0]);
        let c2 = cmp_val(y[0], z[0]);
        if c1 == 0 {
            lemma_cmp_eq(x[0], y[0]);
            if c2 == 0 {
                lemma_cmp_eq(y[0], z[0]);
                lemma_cmp_seq_trans(x.skip(1), y.skip(1), z.skip(1));
            }
        } else if c2 == 0 {
            lemma_cmp_eq(y[0], z[0]);
        } else {
            lemma_cmp_trans(x[0], y[0], z[0]);
        }
    }
}

/// The order on entry sequences is transitive, strictly so as soon as one
/// premise is strict.
pub proof fn lemma_cmp_entries_trans(
    x: Seq<(ValueModel, ValueModel)>,
    y: Seq<(ValueModel, ValueModel)>,
    z: Seq<(ValueModel, ValueModel)>,
)
    requires
        cmp_entries(x, y) <= 0,
        cmp_entries(y, z) <= 0,
    ensures
        cmp_entries(x, z) <= 0,
        cmp_entries(x, y) < 0 || cmp_entries(y, z) < 0 ==> cmp_entries(x, z) < 0,
    decreases x,
{
    if cmp_entries(x, y) == 0 {
        lemma_cmp_entries_eq(x, y);
    } else if cmp_entries(y, z) == 0 {
        lemma_cmp_entries_eq(y, z);
    } else if x.len() > 0 {
        let k1 = cmp_val(x[0].0, y[0].0);
        let k2 = cmp_val(y[0].0, z[0].0);
        if k1 == 0 {
            lemma_cmp_eq(x[0].0, y[0].0);
        }
        if k2 == 0 {
            lemma_cmp_eq(y[0].0, z[0].0);
        }
        if k1 != 0 && k2 != 0 {
            lemma_cmp_trans(x[0].0, y[0].0, z[0].0);
        } else if k1 == 0 && k2 == 0 {
            let v1 = cmp_val(x[0].1, y[0].1);
            let v2 = cmp_val(y[0].1, z[0].1);
            if v1 == 0 {
                lemma_cmp_eq(x[0].1, y[0].1);
            }
            if v2 == 0 {
                lemma_cmp_eq(y[0].1, z[0].1);
            }
            if v1 != 0 && v2 != 0 {
                lemma_cmp_trans(x[0].1, y[0].1, z[0].1);
            } else if v1 == 0 && v2 == 0 {
                lemma_cmp_entries_trans(x.skip(1), y.skip(1), z.skip(1));
            }
        }
    }
}

/// The key-to-value map induced by an entry sequence; a later entry for the
/// same key overrides an earlier one.
pub open spec fn map_of(es: Seq<(ValueModel, ValueModel)>) -> Map<ValueModel, ValueModel>
    decreases es,
{
    if es.len() == 0 {
        Map::empty()
    } else {
        let rest = map_of(es.skip(1));
        if rest.dom().contains(es[0].0) {
            rest
        } else {
            rest.insert(es[0].0, es[0].1)
        }
    }
}

/// A key is in the induced map exactly when some entry carries it.
pub proof fn lemma_map_of_dom(es: Seq<(ValueModel, ValueModel)>)
    ensures
        forall|k: ValueModel|
            #[trigger] map_of(es).dom().contains(k) <==> exists|i: int|
                0 <= i < es.len() && (#[trigger] es[i]).0 == k,
    decreases es,
{
    if es.len() > 0 {
        lemma_map_of_dom(es.skip(1));
        assert forall|k: ValueModel| #[trigger]
            map_of(es).dom().contains(k) implies exists|i: int|
            0 <= i < es.len() && (#[trigger] es[i]).0 == k by {
            if es[0].0 == k {
                assert(es[0].0 == k);
            } else {
                assert(map_of(es.skip(1)).dom().contains(k));
                let i = choose|i: int| 0 <= i < es.skip(1).len() && (#[trigger] es.skip(1)[i]).0
                    == k;
                assert(es[i + 1] == es.skip(1)[i]);
            }
        }
        assert forall|k: ValueModel|
            (exists|i: int| 0 <= i < es.len() && (#[trigger] es[i]).0 == k) implies #[trigger]
            map_of(es).dom().contains(k) by {
            let i = choose|i: int| 0 <= i < es.len() && (#[trigger] es[i]).0 == k;
            if i > 0 {
                assert(es.skip(1)[i - 1] == es[i]);
                assert(map_of(es.skip(1)).dom().contains(k));
            }
        }
    }
}

/// For a sorted entry sequence the head key is fresh, and the induced map is
/// the tail's map extended with the head.
pub proof fn lemma_map_of_sorted(es: Seq<(ValueModel, ValueModel)>)
    requires
        entries_sorted(es),
        es.len() > 0,
    ensures
        !map_of(es.skip(1)).dom().contains(es[0].0),
        map_of(es) == map_of(es.skip(1)).insert(es[0].0, es[0].1),
    decreases es,
{
    lemma_map_of_dom(es.skip(1));
    if map_of(es.skip(1)).dom().contains(es[0].0) {
        let i = choose|i: int|
            0 <= i < es.skip(1).len() && (#[trigger] es.skip(1)[i]).0 == es[0].0;
        assert(es[i + 1] == es.skip(1)[i]);
        assert(cmp_val(es[0].0, es[i + 1].0) < 0);
        lemma_cmp_eq(es[0].0, es[i + 1].0);
    }
}

/// Sorted entry sequences that induce the same map are equal: the canonical
/// form of a map is unique, which is what makes encodings deterministic.
pub proof fn lemma_sorted_entries_unique(
    e1: Seq<(ValueModel, ValueModel)>,
    e2: Seq<(ValueModel, ValueModel)>,
)
    requires
        entries_sorted(e1),
        entries_sorted(e2),
        map_of(e1) == map_of(e2),
    ensures
        e1 == e2,
    decreases e1.len(),
{
    lemma_map_of_dom(e1);
    lemma_map_of_dom(e2);
    if e1.len() == 0 && e2.len() == 0 {
        assert(e1 =~= e2);
    } else if e1.len() == 0 {
        assert(map_of(e2).dom().contains(e2[0].0));
        assert(false);
    } else if e2.len() == 0 {
        assert(map_of(e1).dom().contains(e1[0].0));
        assert(false);
    } else {
        let h1 = e1[0].0;
        let h2 = e2[0].0;
        // Each head key is present in the other sequence, and every key there
        // is at least that sequence's head: the heads carry equal keys.
        assert(map_of(e1).dom().contains(h2));
        let i = choose|i: int| 0 <= i < e1.len() && (#[trigger] e1[i]).0 == h2;
        if i > 0 {
            assert(cmp_val(h1, e1[i].0) < 0);
        } else {
            lemma_cmp_eq(h1, h2);
        }
        assert(map_of(e2).dom().contains(h1));
        let j = choose|j: int| 0 <= j < e2.len() && (#[trigger] e2[j]).0 == h1;
        if j > 0 {
            assert(cmp_val(h2, e2[j].0) < 0);
        } else {
            lemma_cmp_eq(h2, h1);
        }
        lemma_cmp_flip(h1, h2);
        lemma_cmp_eq(h1, h2);
        assert(h1 == h2);
        lemma_map_of_sorted(e1);
        lemma_map_of_sorted(e2);
        assert(e1[0].1 == map_of(e1)[h1]);
        assert(e2[0].1 == map_of(e2)[h1]);
        assert(map_of(e1.skip(1)) =~= map_of(e1).remove(h1));
        assert(map_of(e2.skip(1)) =~= map_of(e2).remove(h1));
        assert(entries_sorted(e1.skip(1))) by {
            assert forall|p: int, q: int|
                0 <= p < q < e1.skip(1).len() implies cmp_val(
                e1.skip(1)[p].0,
                e1.skip(1)[q].0,
            ) < 0 by {
                assert(e1.skip(1)[p] == e1[p + 1]);
                assert(e1.skip(1)[q] == e1[q + 1]);
            }
        }
        assert(entries_sorted(e2.skip(1))) by {
            assert forall|p: int, q: int|
                0 <= p < q < e2.skip(1).len() implies cmp_val(
                e2.skip(1)[p].0,
                e2.skip(1)[q].0,
            ) < 0 by {
                assert(e2.skip(1)[p] == e2[p + 1]);
                assert(e2.skip(1)[q] == e2[q + 1]);
            }
        }
        lemma_sorted_entries_unique(e1.skip(1), e2.skip(1));
        assert(e1 =~= e2) by {
            assert(e1[0] == e2[0]);
            assert forall|m: int| 0 <= m < e1.len() implies e1[m] == e2[m] by {
                if m > 0 {
                    assert(e1.skip(1)[m - 1] == e1[m]);
                    assert(e2.skip(1)[m - 1] == e2[m]);
                }
            }
        }
    }
}

/// Inserts an entry into a sorted entry sequence, keeping it sorted; an entry
/// whose key is already present is dropped.
pub open spec fn entry_insert(
    es: Seq<(ValueModel, ValueModel)>,
    e: (ValueModel, ValueModel),
) -> Seq<(ValueModel, ValueModel)>
    decreases es,
{
    if es.len() == 0 {
        seq![e]
    } else {
        let c = cmp_val(e.0, es[0].0);
        if c < 0 {
            seq![e] + es
        } else if c == 0 {
            es
        } else {
            seq![es[0]] + entry_insert(es.skip(1), e)
        }
    }
}

/// The canonical form of an entry sequence: entries strictly sorted by key,
/// a later entry for the same key overriding an earlier one.
pub open spec fn canon_entries(
    es: Seq<(ValueModel, ValueModel)>,
) -> Seq<(ValueModel, ValueModel)>
    decreases es,
{
    if es.len() == 0 {
        Seq::empty()
    } else {
        entry_insert(canon_entries(es.skip(1)), es[0])
    }
}

/// What `entry_insert` does: it keeps the sequence sorted, extends the
/// induced map with the new entry unless its key is present, and introduces
/// no entry besides the given one.
#[verifier::rlimit(60)]
pub proof fn lemma_entry_insert(es: Seq<(ValueModel, ValueModel)>, e: (ValueModel, ValueModel))
    requires
        entries_sorted(es),
    ensures
        entries_sorted(entry_insert(es, e)),
        map_of(entry_insert(es, e)) == (if map_of(es).dom().contains(e.0) {
            map_of(es)
        } else {
            map_of(es).insert(e.0, e.1)
        }),
        forall|i: int|
            0 <= i < entry_insert(es, e).len() ==> entry_insert(es, e)[i] == e || es.contains(
                #[trigger] entry_insert(es, e)[i],
            ),
    decreases es,
{
    lemma_map_of_dom(es);
    let r = entry_insert(es, e);
    if es.len() == 0 {
        assert(r == seq![e]);
        assert(r.skip(1) =~= Seq::<(ValueModel, ValueModel)>::empty());
        assert(map_of(r.skip(1)) == Map::<ValueModel, ValueModel>::empty());
        assert(!Map::<ValueModel, ValueModel>::empty().dom().contains(e.0));
        assert(r[0] == e);
        assert(map_of(r) == Map::<ValueModel, ValueModel>::empty().insert(e.0, e.1));
        assert(map_of(es) == Map::<ValueModel, ValueModel>::empty());
    } else {
        let c = cmp_val(e.0, es[0].0);
        if c < 0 {
            assert(r == seq![e] + es);
            assert(r.skip(1) =~= es);
            // The key of `e` is below every key in `es`, so it is fresh.
            assert forall|q: int| 0 < q < r.len() implies cmp_val(r[0].0, r[q].0) < 0 by {
                assert(r[q] == es[q - 1]);
                if q > 1 {
                    assert(cmp_val(es[0].0, es[q - 1].0) < 0);
                    lemma_cmp_trans(e.0, es[0].0, es[q - 1].0);
                }
            }
            assert(entries_sorted(r)) by {
                assert forall|p: int, q: int|
                    0 <= p < q < r.len() implies cmp_val(r[p].0, r[q].0) < 0 by {
                    if p > 0 {
                        assert(r[p] == es[p - 1]);
                        assert(r[q] == es[q - 1]);
                    }
                }
            }
            if map_of(es).dom().contains(e.0) {
                let i = choose|i: int| 0 <= i < es.len() && (#[trigger] es[i]).0 == e.0;
                if i > 0 {
                    assert(cmp_val(es[0].0, es[i].0) < 0);
                    lemma_cmp_trans(e.0, es[0].0, es[i].0);
                }
                lemma_cmp_eq(e.0, es[i].0);
                assert(false);
            }
        } else if c == 0 {
            lemma_cmp_eq(e.0, es[0].0);
            assert(map_of(es).dom().contains(e.0));
        } else {
            lemma_cmp_eq(e.0, es[0].0);
            assert(entries_sorted(es.skip(1))) by {
                assert forall|p: int, q: int|
                    0 <= p < q < es.skip(1).len() implies cmp_val(
                    es.skip(1)[p].0,
                    es.skip(1)[q].0,
                ) < 0 by {
                    assert(es.skip(1)[p] == es[p + 1]);
                    assert(es.skip(1)[q] == es[q + 1]);
                }
            }
            lemma_entry_insert(es.skip(1), e);
            let r1 = entry_insert(es.skip(1), e);
            assert(r == seq![es[0]] + r1);
            assert(r.skip(1) =~= r1);
            // Sortedness: the old head stays below the new element and below
            // everything from the tail.
            lemma_cmp_flip(e.0, es[0].0);
            assert forall|q: int| 0 < q < r.len() implies cmp_val(r[0].0, r[q].0) < 0 by {
                assert(r[q] == r1[q - 1]);
                if r1[q - 1] == e {
                    assert(cmp_val(es[0].0, e.0) < 0);
                } else {
                    assert(es.skip(1).contains(r1[q - 1]));
                    let m = choose|m: int|
                        0 <= m < es.skip(1).len() && es.skip(1)[m] == r1[q - 1];
                    assert(es[m + 1] == es.skip(1)[m]);
                    assert(cmp_val(es[0].0, es[m + 1].0) < 0);
                }
            }
            assert(entries_sorted(r)) by {
                assert forall|p: int, q: int|
                    0 <= p < q < r.len() implies cmp_val(r[p].0, r[q].0) < 0 by {
                    if p > 0 {
                        assert(r[p] == r1[p - 1]);
                        assert(r[q] == r1[q - 1]);
                    }
                }
            }
            // The induced map: the head is fresh for the tail before and
            // after the insertion, so inserting commutes with the head.
            lemma_map_of_sorted(es);
            lemma_map_of_dom(es.skip(1));
            lemma_map_of_dom(r1);
            assert(!map_of(r1).dom().contains(es[0].0)) by {
                if map_of(r1).dom().contains(es[0].0) {
                    let i = choose|i: int|
                        0 <= i < r1.len() && (#[trigger] r1[i]).0 == es[0].0;
                    if r1[i] == e {
                        lemma_cmp_eq(e.0, es[0].0);
                        assert(false);
                    } else {
                        assert(es.skip(1).contains(r1[i]));
                        let m = choose|m: int| 0 <= m < es.skip(1).len() && es.skip(1)[m] == r1[i];
                        assert(es[m + 1] == es.skip(1)[m]);
                        assert(cmp_val(es[0].0, es[m + 1].0) < 0);
                        lemma_cmp_eq(es[0].0, es[m + 1].0);
                        assert(false);
                    }
                }
            }
            assert(map_of(r) == map_of(r1).insert(es[0].0, es[0].1));
            if map_of(es).dom().contains(e.0) {
                assert(map_of(es.skip(1)).dom().contains(e.0)) by {
                    let i = choose|i: int| 0 <= i < es.len() && (#[trigger] es[i]).0 == e.0;
                    assert(i > 0);
                    assert(es.skip(1)[i - 1] == es[i]);
                }
                assert(map_of(r) =~= map_of(es));
            } else {
                assert(!map_of(es.skip(1)).dom().contains(e.0)) by {
                    if map_of(es.skip(1)).dom().contains(e.0) {
                        let i = choose|i: int|
                            0 <= i < es.skip(1).len() && (#[trigger] es.skip(1)[i]).0 == e.0;
                        assert(es[i + 1] == es.skip(1)[i]);
                    }
                }
                assert(map_of(r) =~= map_of(es).insert(e.0, e.1));
            }
            // Membership.
            assert forall|i: int|
                0 <= i < r.len() implies r[i] == e || es.contains(#[trigger] r[i]) by {
                if i == 0 {
                    assert(es[0] == r[0]);
                    assert(es.contains(r[0]));
                } else {
                    assert(r[i] == r1[i - 1]);
                    if r1[i - 1] != e {
                        assert(es.skip(1).contains(r1[i - 1]));
                        let m = choose|m: int|
                            0 <= m < es.skip(1).len() && es.skip(1)[m] == r1[i - 1];
                        assert(es[m + 1] == es.skip(1)[m]);
                        assert(es.contains(r[i]));
                    }
                }
            }
        }
    }
}

/// What canonicalization does: the result is sorted, induces the same map,
/// and contains only entries of the input.
pub proof fn lemma_canon_entries(es: Seq<(ValueModel, ValueModel)>)
    ensures
        entries_sorted(canon_entries(es)),
        map_of(canon_entries(es)) == map_of(es),
        forall|i: int|
            0 <= i < canon_entries(es).len() ==> es.contains(#[trigger] canon_entries(es)[i]),
    decreases es,
{
    if es.len() > 0 {
        lemma_canon_entries(es.skip(1));
        lemma_entry_insert(canon_entries(es.skip(1)), es[0]);
        let r = canon_entries(es);
        assert forall|i: int| 0 <= i < r.len() implies es.contains(#[trigger] r[i]) by {
            if r[i] == es[0] {
                assert(es.contains(r[i]));
            } else {
                assert(canon_entries(es.skip(1)).contains(r[i]));
                let m = choose|m: int|
                    0 <= m < canon_entries(es.skip(1)).len() && canon_entries(es.skip(1))[m]
                        == r[i];
                assert(es.skip(1).contains(r[i]));
                let q = choose|q: int| 0 <= q < es.skip(1).len() && es.skip(1)[q] == r[i];
                assert(es[q + 1] == es.skip(1)[q]);
                assert(es.contains(r[i]));
            }
        }
    }
}

/// Canonicalizing an already sorted entry sequence changes nothing.
pub proof fn lemma_canon_sorted_id(es: Seq<(ValueModel, ValueModel)>)
    requires
        entries_sorted(es),
    ensures
        canon_entries(es) == es,
    decreases es,
{
    if es.len() == 0 {
        assert(canon_entries(es) =~= es);
    } else {
        assert(entries_sorted(es.skip(1))) by {
            assert forall|p: int, q: int|
                0 <= p < q < es.skip(1).len() implies cmp_val(
                es.skip(1)[p].0,
                es.skip(1)[q].0,
            ) < 0 by {
                assert(es.skip(1)[p] == es[p + 1]);
                assert(es.skip(1)[q] == es[q + 1]);
            }
        }
        lemma_canon_sorted_id(es.skip(1));
        if es.len() == 1 {
            assert(es.skip(1).len() == 0);
            assert(canon_entries(es) == seq![es[0]]);
            assert(canon_entries(es) =~= es);
        } else {
            assert(es.skip(1)[0] == es[1]);
            assert(cmp_val(es[0].0, es[1].0) < 0);
            assert(canon_entries(es) == seq![es[0]] + es.skip(1));
            assert(canon_entries(es) =~= es);
        }
    }
}

/// The set of elements of a value sequence.
pub open spec fn set_of(xs: Seq<ValueModel>) -> Set<ValueModel>
    decreases xs,
{
    if xs.len() == 0 {
        Set::empty()
    } else {
        set_of(xs.skip(1)).insert(xs[0])
    }
}

/// A value is in the induced set exactly when some element equals it.
pub proof fn lemma_set_of_elems(xs: Seq<ValueModel>)
    ensures
        forall|v: ValueModel| #[trigger] set_of(xs).contains(v) <==> xs.contains(v),
    decreases xs,
{
    if xs.len() > 0 {
        lemma_set_of_elems(xs.skip(1));
        assert forall|v: ValueModel| #[trigger] set_of(xs).contains(v) implies xs.contains(v) by {
            if v != xs[0] {
                assert(set_of(xs.skip(1)).contains(v));
                let i = choose|i: int| 0 <= i < xs.skip(1).len() && xs.skip(1)[i] == v;
                assert(xs[i + 1] == xs.skip(1)[i]);
            }
        }
        assert forall|v: ValueModel| xs.contains(v) implies #[trigger] set_of(xs).contains(v) by {
            let i = choose|i: int| 0 <= i < xs.len() && xs[i] == v;
            if i > 0 {
                assert(xs.skip(1)[i - 1] == xs[i]);
                assert(xs.skip(1).contains(v));
                assert(set_of(xs.skip(1)).contains(v));
            } else {
                assert(v == xs[0]);
            }
        }
    }
}

/// For a sorted value sequence the head is fresh in the tail.
pub proof fn lemma_set_of_sorted(xs: Seq<ValueModel>)
    requires
        vals_sorted(xs),
        xs.len() > 0,
    ensures
        !set_of(xs.skip(1)).contains(xs[0]),
        set_of(xs) == set_of(xs.skip(1)).insert(xs[0]),
{
    lemma_set_of_elems(xs.skip(1));
    if set_of(xs.skip(1)).contains(xs[0]) {
        let i = choose|i: int| 0 <= i < xs.skip(1).len() && xs.skip(1)[i] == xs[0];
        assert(xs[i + 1] == xs.skip(1)[i]);
        assert(cmp_val(xs[0], xs[i + 1]) < 0);
        lemma_cmp_eq(xs[0], xs[i + 1]);
    }
}

/// Sorted value sequences with the same elements are equal: the canonical
/// form of a set is unique.
pub proof fn lemma_sorted_vals_unique(x1: Seq<ValueModel>, x2: Seq<ValueModel>)
    requires
        vals_sorted(x1),
        vals_sorted(x2),
        set_of(x1) == set_of(x2),
    ensures
        x1 == x2,
    decreases x1.len(),
{
    lemma_set_of_elems(x1);
    lemma_set_of_elems(x2);
    if x1.len() == 0 && x2.len() == 0 {
        assert(x1 =~= x2);
    } else if x1.len() == 0 {
        assert(set_of(x2).contains(x2[0]));
        assert(false);
    } else if x2.len() == 0 {
        assert(set_of(x1).contains(x1[0]));
        assert(false);
    } else {
        let h1 = x1[0];
        let h2 = x2[0];
        assert(set_of(x1).contains(h2));
        let i = choose|i: int| 0 <= i < x1.len() && x1[i] == h2;
        if i > 0 {
            assert(cmp_val(h1, x1[i]) < 0);
        } else {
            lemma_cmp_eq(h1, h2);
        }
        assert(set_of(x2).contains(h1));
        let j = choose|j: int| 0 <= j < x2.len() && x2[j] == h1;
        if j > 0 {
            assert(cmp_val(h2, x2[j]) < 0);
        } else {
            lemma_cmp_eq(h2, h1);
        }
        lemma_cmp_flip(h1, h2);
        lemma_cmp_eq(h1, h2);
        assert(h1 == h2);
        lemma_set_of_sorted(x1);
        lemma_set_of_sorted(x2);
        assert(set_of(x1.skip(1)) =~= set_of(x1).remove(h1));
        assert(set_of(x2.skip(1)) =~= set_of(x2).remove(h1));
        assert(vals_sorted(x1.skip(1))) by {
            assert forall|p: int, q: int|
                0 <= p < q < x1.skip(1).len() implies cmp_val(x1.skip(1)[p], x1.skip(1)[q]) < 0 by {
                assert(x1.skip(1)[p] == x1[p + 1]);
                assert(x1.skip(1)[q] == x1[q + 1]);
            }
        }
        assert(vals_sorted(x2.skip(1))) by {
            assert forall|p: int, q: int|
                0 <= p < q < x2.skip(1).len() implies cmp_val(x2.skip(1)[p], x2.skip(1)[q]) < 0 by {
                assert(x2.skip(1)[p] == x2[p + 1]);
                assert(x2.skip(1)[q] == x2[q + 1]);
            }
        }
        lemma_sorted_vals_unique(x1.skip(1), x2.skip(1));
        assert(x1 =~= x2) by {
            assert forall|m: int| 0 <= m < x1.len() implies x1[m] == x2[m] by {
                if m > 0 {
                    assert(x1.skip(1)[m - 1] == x1[m]);
                    assert(x2.skip(1)[m - 1] == x2[m]);
                }
            }
        }
    }
}

/// Inserts a value into a sorted value sequence, keeping it sorted; a value
/// already present is dropped.
pub open spec fn val_insert(xs: Seq<ValueModel>, v: ValueModel) -> Seq<ValueModel>
    decreases xs,
{
    if xs.len() == 0 {
        seq![v]
    } else {
        let c = cmp_val(v, xs[0]);
        if c < 0 {
            seq![v] + xs
        } else if c == 0 {
            xs
        } else {
            seq![xs[0]] + val_insert(xs.skip(1), v)
        }
    }
}

/// The canonical form of a value sequence seen as a set: elements strictly
/// sorted, duplicates dropped.
pub open spec fn canon_vals(xs: Seq<ValueModel>) -> Seq<ValueModel>
    decreases xs,
{
    if xs.len() == 0 {
        Seq::empty()
    } else {
        val_insert(canon_vals(xs.skip(1)), xs[0])
    }
}

/// What `val_insert` does: it keeps the sequence sorted, adds the value to
/// the induced set, and introduces no element besides the given one.
#[verifier::rlimit(60)]
pub proof fn lemma_val_insert(xs: Seq<ValueModel>, v: ValueModel)
    requires
        vals_sorted(xs),
    ensures
        vals_sorted(val_insert(xs, v)),
        set_of(val_insert(xs, v)) == set_of(xs).insert(v),
        forall|i: int|
            0 <= i < val_insert(xs, v).len() ==> val_insert(xs, v)[i] == v || xs.contains(
                #[trigger] val_insert(xs, v)[i],
            ),
    decreases xs,
{
    lemma_set_of_elems(xs);
    let r = val_insert(xs, v);
    if xs.len() == 0 {
        assert(r == seq![v]);
        assert(r.skip(1) =~= Seq::<ValueModel>::empty());
        assert(set_of(r.skip(1)) == Set::<ValueModel>::empty());
        assert(r[0] == v);
        assert(set_of(r) == Set::<ValueModel>::empty().insert(v));
        assert(set_of(xs) == Set::<ValueModel>::empty());
        assert(set_of(r) =~= set_of(xs).insert(v));
    } else {
        let c = cmp_val(v, xs[0]);
        if c < 0 {
            assert(r == seq![v] + xs);
            assert(r.skip(1) =~= xs);
            assert forall|q: int| 0 < q < r.len() implies cmp_val(r[0], r[q]) < 0 by {
                assert(r[q] == xs[q - 1]);
                if q > 1 {
                    assert(cmp_val(xs[0], xs[q - 1]) < 0);
                    lemma_cmp_trans(v, xs[0], xs[q - 1]);
                }
            }
            assert(vals_sorted(r)) by {
                assert forall|p: int, q: int|
                    0 <= p < q < r.len() implies cmp_val(r[p], r[q]) < 0 by {
                    if p > 0 {
                        assert(r[p] == xs[p - 1]);
                        assert(r[q] == xs[q - 1]);
                    }
                }
            }
            assert(set_of(r) == set_of(xs).insert(v));
        } else if c == 0 {
            lemma_cmp_eq(v, xs[0]);
            assert(set_of(xs).contains(v));
            assert(set_of(r) =~= set_of(xs).insert(v));
        } else {
            lemma_cmp_eq(v, xs[0]);
            assert(vals_sorted(xs.skip(1))) by {
                assert forall|p: int, q: int|
                    0 <= p < q < xs.skip(1).len() implies cmp_val(
                    xs.skip(1)[p],
                    xs.skip(1)[q],
                ) < 0 by {
                    assert(xs.skip(1)[p] == xs[p + 1]);
                    assert(xs.skip(1)[q] == xs[q + 1]);
                }
            }
            lemma_val_insert(xs.skip(1), v);
            let r1 = val_insert(xs.skip(1), v);
            assert(r == seq![xs[0]] + r1);
            assert(r.skip(1) =~= r1);
            lemma_cmp_flip(v, xs[0]);
            assert forall|q: int| 0 < q < r.len() implies cmp_val(r[0], r[q]) < 0 by {
                assert(r[q] == r1[q - 1]);
                if r1[q - 1] == v {
                    assert(cmp_val(xs[0], v) < 0);
                } else {
                    assert(xs.skip(1).contains(r1[q - 1]));
                    let m = choose|m: int| 0 <= m < xs.skip(1).len() && xs.skip(1)[m] == r1[q - 1];
                    assert(xs[m + 1] == xs.skip(1)[m]);
                    assert(cmp_val(xs[0], xs[m + 1]) < 0);
                }
            }
            assert(vals_sorted(r)) by {
                assert forall|p: int, q: int|
                    0 <= p < q < r.len() implies cmp_val(r[p], r[q]) < 0 by {
                    if p > 0 {
                        assert(r[p] == r1[p - 1]);
                        assert(r[q] == r1[q - 1]);
                    }
                }
            }
            assert(set_of(r) == set_of(r1).insert(xs[0]));
            assert(set_of(xs) == set_of(xs.skip(1)).insert(xs[0]));
            assert(set_of(r) =~= set_of(xs).insert(v));
            assert forall|i: int|
                0 <= i < r.len() implies r[i] == v || xs.contains(#[trigger] r[i]) by {
                if i == 0 {
                    assert(xs[0] == r[0]);
                    assert(xs.contains(r[0]));
                } else {
                    assert(r[i] == r1[i - 1]);
                    if r1[i - 1] != v {
                        assert(xs.skip(1).contains(r1[i - 1]));
                        let m = choose|m: int|
                            0 <= m < xs.skip(1).len() && xs.skip(1)[m] == r1[i - 1];
                        assert(xs[m + 1] == xs.skip(1)[m]);
                        assert(xs.contains(r[i]));
                    }
                }
            }
        }
    }
}

/// What set canonicalization does: the result is sorted, induces the same
/// set, and contains only elements of the input.
pub proof fn lemma_canon_vals(xs: Seq<ValueModel>)
    ensures
        vals_sorted(canon_vals(xs)),
        set_of(canon_vals(xs)) == set_of(xs),
        forall|i: int| 0 <= i < canon_vals(xs).len() ==> xs.contains(#[trigger] canon_vals(xs)[i]),
    decreases xs,
{
    if xs.len() > 0 {
        lemma_canon_vals(xs.skip(1));
        lemma_val_insert(canon_vals(xs.skip(1)), xs[0]);
        let r = canon_vals(xs);
        assert(set_of(r) =~= set_of(xs));
        assert forall|i: int| 0 <= i < r.len() implies xs.contains(#[trigger] r[i]) by {
            if r[i] == xs[0] {
                assert(xs.contains(r[i]));
            } else {
                assert(canon_vals(xs.skip(1)).contains(r[i]));
                let m = choose|m: int|
                    0 <= m < canon_vals(xs.skip(1)).len() && canon_vals(xs.skip(1))[m] == r[i];
                assert(xs.skip(1).contains(r[i]));
                let q = choose|q: int| 0 <= q < xs.skip(1).len() && xs.skip(1)[q] == r[i];
                assert(xs[q + 1] == xs.skip(1)[q]);
                assert(xs.contains(r[i]));
            }
        }
    }
}

/// Dropping an equal prefix does not change the comparison of value
/// sequences.
pub proof fn lemma_cmp_seq_common_prefix(s: Seq<ValueModel>, t: Seq<ValueModel>, i: int)
    requires
        0 <= i <= s.len(),
        i <= t.len(),
        forall|k: int| 0 <= k < i ==> s[k] == t[k],
    ensures
        cmp_seq(s, t) == cmp_seq(s.skip(i), t.skip(i)),
    decreases i,
{
    if i == 0 {
        assert(s.skip(0) =~= s);
        assert(t.skip(0) =~= t);
    } else {
        assert(s[0] == t[0]);
        lemma_cmp_eq(s[0], t[0]);
        assert forall|k: int| 0 <= k < i - 1 implies s.skip(1)[k] == t.skip(1)[k] by {
            assert(s.skip(1)[k] == s[k + 1]);
            assert(t.skip(1)[k] == t[k + 1]);
        }
        lemma_cmp_seq_common_prefix(s.skip(1), t.skip(1), i - 1);
        assert(s.skip(1).skip(i - 1) =~= s.skip(i));
        assert(t.skip(1).skip(i - 1) =~= t.skip(i));
    }
}

/// Dropping an equal prefix does not change the comparison of entry
/// sequences.
pub proof fn lemma_cmp_entries_common_prefix(
    s: Seq<(ValueModel, ValueModel)>,
    t: Seq<(ValueModel, ValueModel)>,
    i: int,
)
    requires
        0 <= i <= s.len(),
        i <= t.len(),
        forall|k: int| 0 <= k < i ==> s[k] == t[k],
    ensures
        cmp_entries(s, t) == cmp_entries(s.skip(i), t.skip(i)),
    decreases i,
{
    if i == 0 {
        assert(s.skip(0) =~= s);
        assert(t.skip(0) =~= t);
    } else {
        assert(s[0] == t[0]);
        lemma_cmp_eq(s[0].0, t[0].0);
        lemma_cmp_eq(s[0].1, t[0].1);
        assert forall|k: int| 0 <= k < i - 1 implies s.skip(1)[k] == t.skip(1)[k] by {
            assert(s.skip(1)[k] == s[k + 1]);
            assert(t.skip(1)[k] == t[k + 1]);
        }
        lemma_cmp_entries_common_prefix(s.skip(1), t.skip(1), i - 1);
        assert(s.skip(1).skip(i - 1) =~= s.skip(i));
        assert(t.skip(1).skip(i - 1) =~= t.skip(i));
    }
}

/// The rank of a value's variant, as executable code.
pub fn tag_value(a: &Value) -> (t: u8)
    ensures
        t as int == tag_of(a@),
{
    match a {
        Value::Int(_) => 0,
        Value::Str(_) => 1,
        Value::Bool(_) => 2,
        Value::MapVal(_) => 3,
        Value::ListVal(_) => 4,
        Value::SetVal(_) => 5,
        Value::Sentinel(_) => 6,
        Value::NoneVal => 7,
    }
}

/// Compares two strings lexicographically by characters.
fn cmp_strings(x: &String, y: &String) -> (r: i8)
    ensures
        r as int == cmp_chars(x@, y@),
{
    let xs = x.as_str();
    let ys = y.as_str();
    let n = xs.unicode_len();
    let m = ys.unicode_len();
    let mut i: usize = 0;
    while i < n && i < m
        invariant
            i <= n,
            i <= m,
            n == x@.len(),
            m == y@.len(),
            xs@ == x@,
            ys@ == y@,
            forall|k: int| 0 <= k < i ==> x@[k] == y@[k],
        decreases n - i,
    {
        let cx = xs.get_char(i);
        let cy = ys.get_char(i);
        if (cx as u32) < (cy as u32) {
            proof {
                lemma_cmp_chars_common_prefix(x@, y@, i as int);
                assert(x@.skip(i as int)[0] == x@[i as int]);
                assert(y@.skip(i as int)[0] == y@[i as int]);
            }
            return -1;
        }
        if (cx as u32) > (cy as u32) {
            proof {
                lemma_cmp_chars_common_prefix(x@, y@, i as int);
                assert(x@.skip(i as int)[0] == x@[i as int]);
                assert(y@.skip(i as int)[0] == y@[i as int]);
            }
            return 1;
        }
        proof {
            assert(x@[i as int] == y@[i as int]);
        }
        i = i + 1;
    }
    proof {
        lemma_cmp_chars_common_prefix(x@, y@, i as int);
    }
    if n == m {
        0
    } else if n < m {
        -1
    } else {
        1
    }
}

/// Compares two values in the total order; the result is -1, 0 or 1 and
/// matches [`cmp_val`] on the models.
pub fn cmp_value(a: &Value, b: &Value) -> (r: i8)
    ensures
        r as int == cmp_val(a@, b@),
    decreases *a,
{
    let ta = tag_value(a);
    let tb = tag_value(b);
    if ta < tb {
        return -1;
    }
    if ta > tb {
        return 1;
    }
    match (a, b) {
        (Value::Int(x), Value::Int(y)) => {
            if *x < *y {
                -1
            } else if *x > *y {
                1
            } else {
                0
            }
        },
        (Value::Str(x), Value::Str(y)) => cmp_strings(x, y),
        (Value::Bool(x), Value::Bool(y)) => {
            if *x == *y {
                0
            } else if !*x {
                -1
            } else {
                1
            }
        },
        (Value::MapVal(x), Value::MapVal(y)) => cmp_entry_vecs(x, y),
        (Value::ListVal(x), Value::ListVal(y)) => cmp_value_vecs(x, y),
        (Value::SetVal(x), Value::SetVal(y)) => cmp_value_vecs(x, y),
        (Value::Sentinel(_), Value::Sentinel(_)) => 0,
        (Value::NoneVal, Value::NoneVal) => 0,
        _ => 0,
    }
}

/// Compares two value vectors lexicographically.
fn cmp_value_vecs(x: &Vec<Value>, y: &Vec<Value>) -> (r: i8)
    ensures
        r as int == cmp_seq(models_of(x@), models_of(y@)),
    decreases x@,
{
    proof {
        lemma_models_of(x@);
        lemma_models_of(y@);
    }
    let ghost s = models_of(x@);
    let ghost t = models_of(y@);
    let n = x.len();
    let m = y.len();
    let mut i: usize = 0;
    while i < n && i < m
        invariant
            i <= n,
            i <= m,
            n == x@.len(),
            m == y@.len(),
            s == models_of(x@),
            t == models_of(y@),
            s.len() == n,
            t.len() == m,
            forall|k: int| 0 <= k < i ==> s[k] == t[k],
        decreases n - i,
    {
        let c = cmp_value(&x[i], &y[i]);
        proof {
            lemma_models_of(x@);
            lemma_models_of(y@);
            assert(s[i as int] == x@[i as int]@);
            assert(t[i as int] == y@[i as int]@);
        }
        if c != 0 {
            proof {
                lemma_cmp_seq_common_prefix(s, t, i as int);
                assert(s.skip(i as int)[0] == s[i as int]);
                assert(t.skip(i as int)[0] == t[i as int]);
            }
            return c;
        }
        proof {
            lemma_cmp_eq(s[i as int], t[i as int]);
        }
        i = i + 1;
    }
    proof {
        lemma_cmp_seq_common_prefix(s, t, i as int);
    }
    if n == m {
        0
    } else if n < m {
        -1
    } else {
        1
    }
}

/// Compares two entry vectors lexicographically, each entry by key then
/// value.
fn cmp_entry_vecs(x: &Vec<(Value, Value)>, y: &Vec<(Value, Value)>) -> (r: i8)
    ensures
        r as int == cmp_entries(entry_models_of(x@), entry_models_of(y@)),
    decreases x@,
{
    proof {
        lemma_entry_models_of(x@);
        lemma_entry_models_of(y@);
    }
    let ghost s = entry_models_of(x@);
    let ghost t = entry_models_of(y@);
    let n = x.len();
    let m = y.len();
    let mut i: usize = 0;
    while i < n && i < m
        invariant
            i <= n,
            i <= m,
            n == x@.len(),
            m == y@.len(),
            s == entry_models_of(x@),
            t == entry_models_of(y@),
            s.len() == n,
            t.len() == m,
            forall|k: int| 0 <= k < i ==> s[k] == t[k],
        decreases n - i,
    {
        let c = cmp_value(&x[i].0, &y[i].0);
        proof {
            lemma_entry_models_of(x@);
            lemma_entry_models_of(y@);
            assert(s[i as int] == (x@[i as int].0@, x@[i as int].1@));
            assert(t[i as int] == (y@[i as int].0@, y@[i as int].1@));
        }
        if c != 0 {
            proof {
                lemma_cmp_entries_common_prefix(s, t, i as int);
                assert(s.skip(i as int)[0] == s[i as int]);
                assert(t.skip(i as int)[0] == t[i as int]);
            }
            return c;
        }
        let d = cmp_value(&x[i].1, &y[i].1);
        if d != 0 {
            proof {
                lemma_cmp_entries_common_prefix(s, t, i as int);
                assert(s.skip(i as int)[0] == s[i as int]);
                assert(t.skip(i as int)[0] == t[i as int]);
            }
            return d;
        }
        proof {
            lemma_cmp_eq(s[i as int].0, t[i as int].0);
            lemma_cmp_eq(s[i as int].1, t[i as int].1);
            assert(s[i as int] == t[i as int]);
        }
        i = i + 1;
    }
    proof {
        lemma_cmp_entries_common_prefix(s, t, i as int);
    }
    if n == m {
        0
    } else if n < m {
        -1
    } else {
        1
    }
}


/// Where the scan of `entry_insert` stops, the spec takes one of two shapes:
/// the sequence unchanged (key present) or the entry spliced in at the stop
/// position.
pub proof fn lemma_entry_insert_at(
    es: Seq<(ValueModel, ValueModel)>,
    e: (ValueModel, ValueModel),
    i: int,
)
    requires
        0 <= i <= es.len(),
        forall|j: int| 0 <= j < i ==> cmp_val(e.0, (#[trigger] es[j]).0) > 0,
    ensures
        i < es.len() && cmp_val(e.0, es[i].0) == 0 ==> entry_insert(es, e) == es,
        i == es.len() || cmp_val(e.0, es[i].0) < 0 ==> entry_insert(es, e) == es.take(i)
            + seq![e] + es.skip(i),
    decreases i,
{
    if i == 0 {
        if es.len() == 0 {
            assert(entry_insert(es, e) =~= es.take(0) + seq![e] + es.skip(0));
        } else {
            let c = cmp_val(e.0, es[0].0);
            if c < 0 {
                assert(entry_insert(es, e) =~= es.take(0) + seq![e] + es.skip(0));
            }
        }
    } else {
        assert(cmp_val(e.0, es[0].0) > 0);
        assert forall|j: int| 0 <= j < i - 1 implies cmp_val(
            e.0,
            (#[trigger] es.skip(1)[j]).0,
        ) > 0 by {
            assert(es.skip(1)[j] == es[j + 1]);
        }
        lemma_entry_insert_at(es.skip(1), e, i - 1);
        assert(entry_insert(es, e) == seq![es[0]] + entry_insert(es.skip(1), e));
        if i < es.len() && cmp_val(e.0, es[i].0) == 0 {
            assert(es.skip(1)[i - 1] == es[i]);
            assert(entry_insert(es.skip(1), e) == es.skip(1));
            assert(entry_insert(es, e) =~= es);
        } else if i == es.len() || cmp_val(e.0, es[i].0) < 0 {
            if i < es.len() {
                assert(es.skip(1)[i - 1] == es[i]);
            }
            assert(entry_insert(es.skip(1), e) == es.skip(1).take(i - 1) + seq![e] + es.skip(
                1,
            ).skip(i - 1));
            assert(entry_insert(es, e) =~= es.take(i) + seq![e] + es.skip(i)) by {
                assert forall|p: int|
                    0 <= p < entry_insert(es, e).len() implies entry_insert(es, e)[p] == (es.take(
                    i,
                ) + seq![e] + es.skip(i))[p] by {
                    if 1 <= p < i {
                        assert(es.skip(1).take(i - 1)[p - 1] == es[p]);
                    } else if p > i {
                        assert(es.skip(1).skip(i - 1)[p - 1 - i] == es[p - 1]);
                    }
                }
            }
        }
    }
}

/// The analogue of `lemma_entry_insert_at` for set elements.
pub proof fn lemma_val_insert_at(xs: Seq<ValueModel>, v: ValueModel, i: int)
    requires
        0 <= i <= xs.len(),
        forall|j: int| 0 <= j < i ==> cmp_val(v, #[trigger] xs[j]) > 0,
    ensures
        i < xs.len() && cmp_val(v, xs[i]) == 0 ==> val_insert(xs, v) == xs,
        i == xs.len() || cmp_val(v, xs[i]) < 0 ==> val_insert(xs, v) == xs.take(i) + seq![v]
            + xs.skip(i),
    decreases i,
{
    if i == 0 {
        if xs.len() == 0 {
            assert(val_insert(xs, v) =~= xs.take(0) + seq![v] + xs.skip(0));
        } else {
            let c = cmp_val(v, xs[0]);
            if c < 0 {
                assert(val_insert(xs, v) =~= xs.take(0) + seq![v] + xs.skip(0));
            }
        }
    } else {
        assert(cmp_val(v, xs[0]) > 0);
        assert forall|j: int| 0 <= j < i - 1 implies cmp_val(v, #[trigger] xs.skip(1)[j]) > 0 by {
            assert(xs.skip(1)[j] == xs[j + 1]);
        }
        lemma_val_insert_at(xs.skip(1), v, i - 1);
        assert(val_insert(xs, v) == seq![xs[0]] + val_insert(xs.skip(1), v));
        if i < xs.len() && cmp_val(v, xs[i]) == 0 {
            assert(xs.skip(1)[i - 1] == xs[i]);
            assert(val_insert(xs.skip(1), v) == xs.skip(1));
            assert(val_insert(xs, v) =~= xs);
        } else if i == xs.len() || cmp_val(v, xs[i]) < 0 {
            if i < xs.len() {
                assert(xs.skip(1)[i - 1] == xs[i]);
            }
            assert(val_insert(xs.skip(1), v) == xs.skip(1).take(i - 1) + seq![v] + xs.skip(
                1,
            ).skip(i - 1));
            assert(val_insert(xs, v) =~= xs.take(i) + seq![v] + xs.skip(i)) by {
                assert forall|p: int|
                    0 <= p < val_insert(xs, v).len() implies val_insert(xs, v)[p] == (xs.take(i)
                    + seq![v] + xs.skip(i))[p] by {
                    if 1 <= p < i {
                        assert(xs.skip(1).take(i - 1)[p - 1] == xs[p]);
                    } else if p > i {
                        assert(xs.skip(1).skip(i - 1)[p - 1 - i] == xs[p - 1]);
                    }
                }
            }
        }
    }
}

/// Finds the position where a key stops being greater than the stored keys.
fn find_entry_pos(out: &Vec<(Value, Value)>, k: &Value) -> (j: usize)
    ensures
        j <= out@.len(),
        forall|p: int|
            0 <= p < j ==> cmp_val(k@, (#[trigger] entry_models_of(out@)[p]).0) > 0,
        j < out@.len() ==> cmp_val(k@, entry_models_of(out@)[j as int].0) <= 0,
{
    let n = out.len();
    let mut j: usize = 0;
    while j < n
        invariant
            j <= n,
            n == out@.len(),
            forall|p: int|
                0 <= p < j ==> cmp_val(k@, (#[trigger] entry_models_of(out@)[p]).0) > 0,
        decreases n - j,
    {
        let c = cmp_value(k, &out[j].0);
        proof {
            lemma_entry_models_of(out@);
            assert(entry_models_of(out@)[j as int].0 == out@[j as int].0@);
        }
        if c <= 0 {
            return j;
        }
        j = j + 1;
    }
    j
}

/// Inserts a key/value pair into a vector of entries kept strictly sorted by
/// key; a pair whose key is already stored is dropped.
fn insert_entry_sorted(out: &mut Vec<(Value, Value)>, k: Value, v: Value)
    ensures
        entry_models_of(final(out)@) == entry_insert(entry_models_of(old(out)@), (k@, v@)),
{
    let ghost es0 = entry_models_of(old(out)@);
    proof {
        lemma_entry_models_of(out@);
    }
    let j = find_entry_pos(out, &k);
    if j < out.len() {
        let c = cmp_value(&k, &out[j].0);
        proof {
            lemma_entry_models_of(out@);
            assert(es0[j as int].0 == out@[j as int].0@);
        }
        if c == 0 {
            proof {
                lemma_entry_insert_at(es0, (k@, v@), j as int);
            }
            return ;
        }
    }
    proof {
        lemma_entry_insert_at(es0, (k@, v@), j as int);
    }
    let ghost before = out@;
    let ghost e = (k@, v@);
    out.insert(j, (k, v));
    proof {
        lemma_entry_models_of(before);
        lemma_entry_models_of(out@);
        let ghost target = es0.take(j as int) + seq![e] + es0.skip(j as int);
        assert(target.len() == es0.len() + 1);
        assert(out@.len() == before.len() + 1);
        assert(entry_models_of(out@) =~= target) by {
            assert forall|p: int|
                0 <= p < entry_models_of(out@).len() implies entry_models_of(out@)[p]
                == target[p] by {
                assert(out@[p] == before.insert(j as int, (k, v))[p]);
                if p < j {
                    assert(out@[p] == before[p]);
                    assert(target[p] == es0.take(j as int)[p]);
                    assert(entry_models_of(out@)[p] == (out@[p].0@, out@[p].1@));
                    assert(es0[p] == (before[p].0@, before[p].1@));
                } else if p == j {
                    assert(out@[p] == (k, v));
                    assert(target[p] == e);
                    assert(entry_models_of(out@)[p] == (out@[p].0@, out@[p].1@));
                } else {
                    assert(out@[p] == before[p - 1]);
                    assert(target[p] == es0.skip(j as int)[p - 1 - j]);
                    assert(es0.skip(j as int)[p - 1 - j] == es0[p - 1]);
                    assert(entry_models_of(out@)[p] == (out@[p].0@, out@[p].1@));
                    assert(es0[p - 1] == (before[p - 1].0@, before[p - 1].1@));
                }
            }
        }
    }
}

/// Finds the position where a value stops being greater than the stored
/// elements.
fn find_val_pos(out: &Vec<Value>, v: &Value) -> (j: usize)
    ensures
        j <= out@.len(),
        forall|p: int| 0 <= p < j ==> cmp_val(v@, #[trigger] models_of(out@)[p]) > 0,
        j < out@.len() ==> cmp_val(v@, models_of(out@)[j as int]) <= 0,
{
    let n = out.len();
    let mut j: usize = 0;
    while j < n
        invariant
            j <= n,
            n == out@.len(),
            forall|p: int| 0 <= p < j ==> cmp_val(v@, #[trigger] models_of(out@)[p]) > 0,
        decreases n - j,
    {
        let c = cmp_value(v, &out[j]);
        proof {
            lemma_models_of(out@);
            assert(models_of(out@)[j as int] == out@[j as int]@);
        }
        if c <= 0 {
            return j;
        }
        j = j + 1;
    }
    j
}

/// Inserts a value into a vector kept strictly sorted; a value already
/// stored is dropped.
fn insert_val_sorted(out: &mut Vec<Value>, v: Value)
    ensures
        models_of(final(out)@) == val_insert(models_of(old(out)@), v@),
{
    let ghost xs0 = models_of(old(out)@);
    proof {
        lemma_models_of(out@);
    }
    let j = find_val_pos(out, &v);
    if j < out.len() {
        let c = cmp_value(&v, &out[j]);
        proof {
            lemma_models_of(out@);
            assert(xs0[j as int] == out@[j as int]@);
        }
        if c == 0 {
            proof {
                lemma_val_insert_at(xs0, v@, j as int);
            }
            return ;
        }
    }
    proof {
        lemma_val_insert_at(xs0, v@, j as int);
    }
    let ghost before = out@;
    out.insert(j, v);
    proof {
        lemma_models_of(before);
        lemma_models_of(out@);
        assert(models_of(out@) =~= xs0.take(j as int) + seq![v@] + xs0.skip(j as int)) by {
            assert forall|p: int|
                0 <= p < models_of(out@).len() implies models_of(out@)[p] == (xs0.take(j as int)
                + seq![v@] + xs0.skip(j as int))[p] by {
                assert(out@[p] == before.insert(j as int, v)[p]);
                if p < j {
                    assert(out@[p] == before[p]);
                } else if p > j {
                    assert(out@[p] == before[p - 1]);
                }
            }
        }
    }
}

/// Brings a vector of entries into canonical form: entries strictly sorted
/// by key, a later entry for the same key overriding an earlier one.
pub fn canonicalize_entries(map: Vec<(Value, Value)>) -> (r: Vec<(Value, Value)>)
    ensures
        entry_models_of(r@) == canon_entries(entry_models_of(map@)),
{
    let ghost orig_exec = map@;
    let ghost orig = entry_models_of(map@);
    let mut input = map;
    let mut out: Vec<(Value, Value)> = Vec::new();
    proof {
        lemma_entry_models_of(orig_exec);
        assert(input@ =~= orig_exec.take(input@.len() as int));
        assert(entry_models_of(out@) =~= canon_entries(orig.skip(orig.len() as int)));
    }
    while input.len() > 0
        invariant
            input@ == orig_exec.take(input@.len() as int),
            input@.len() <= orig.len(),
            orig == entry_models_of(orig_exec),
            orig.len() == orig_exec.len(),
            forall|i: int|
                0 <= i < orig.len() ==> orig[i] == ((#[trigger] orig_exec[i]).0@, orig_exec[i].1@),
            entry_models_of(out@) == canon_entries(orig.skip(input@.len() as int)),
        decreases input@.len(),
    {
        let ghost len0 = input@.len() as int;
        let e = input.pop().unwrap();
        proof {
            assert(e == orig_exec[len0 - 1]);
            assert((e.0@, e.1@) == orig[len0 - 1]);
            assert(input@ =~= orig_exec.take(input@.len() as int));
        }
        insert_entry_sorted(&mut out, e.0, e.1);
        proof {
            let s = orig.skip(len0 - 1);
            assert(s[0] == orig[len0 - 1]);
            assert(s.skip(1) =~= orig.skip(len0));
            assert(canon_entries(s) == entry_insert(canon_entries(orig.skip(len0)), orig[len0 - 1]));
        }
    }
    proof {
        assert(orig.skip(0) =~= orig);
    }
    out
}

/// Brings a vector of values into canonical set form: elements strictly
/// sorted, duplicates dropped.
pub fn canonicalize_vals(set: Vec<Value>) -> (r: Vec<Value>)
    ensures
        models_of(r@) == canon_vals(models_of(set@)),
{
    let ghost orig_exec = set@;
    let ghost orig = models_of(set@);
    let mut input = set;
    let mut out: Vec<Value> = Vec::new();
    proof {
        lemma_models_of(orig_exec);
        assert(input@ =~= orig_exec.take(input@.len() as int));
        assert(models_of(out@) =~= canon_vals(orig.skip(orig.len() as int)));
    }
    while input.len() > 0
        invariant
            input@ == orig_exec.take(input@.len() as int),
            input@.len() <= orig.len(),
            orig == models_of(orig_exec),
            orig.len() == orig_exec.len(),
            forall|i: int| 0 <= i < orig.len() ==> orig[i] == (#[trigger] orig_exec[i])@,
            models_of(out@) == canon_vals(orig.skip(input@.len() as int)),
        decreases input@.len(),
    {
        let ghost len0 = input@.len() as int;
        let e = input.pop().unwrap();
        proof {
            assert(e == orig_exec[len0 - 1]);
            assert(e@ == orig[len0 - 1]);
            assert(input@ =~= orig_exec.take(input@.len() as int));
        }
        insert_val_sorted(&mut out, e);
        proof {
            let s = orig.skip(len0 - 1);
            assert(s[0] == orig[len0 - 1]);
            assert(s.skip(1) =~= orig.skip(len0));
            assert(canon_vals(s) == val_insert(canon_vals(orig.skip(len0)), orig[len0 - 1]));
        }
    }
    proof {
        assert(orig.skip(0) =~= orig);
    }
    out
}


/// Canonicalization preserves well-formedness of the entries' values.
pub proof fn lemma_canon_entries_wf(es: Seq<(ValueModel, ValueModel)>)
    requires
        forall|i: int| #![auto] 0 <= i < es.len() ==> wf(es[i].0) && wf(es[i].1),
    ensures
        forall|i: int|
            #![auto]
            0 <= i < canon_entries(es).len() ==> wf(canon_entries(es)[i].0) && wf(
                canon_entries(es)[i].1,
            ),
{
    lemma_canon_entries(es);
    assert forall|i: int|
        #![auto]
        0 <= i < canon_entries(es).len() implies wf(canon_entries(es)[i].0) && wf(
        canon_entries(es)[i].1,
    ) by {
        assert(es.contains(canon_entries(es)[i]));
        let j = choose|j: int| 0 <= j < es.len() && es[j] == canon_entries(es)[i];
        assert(wf(es[j].0) && wf(es[j].1));
    }
}

/// Set canonicalization preserves well-formedness of the elements.
pub proof fn lemma_canon_vals_wf(xs: Seq<ValueModel>)
    requires
        forall|i: int| #![auto] 0 <= i < xs.len() ==> wf(xs[i]),
    ensures
        forall|i: int| #![auto] 0 <= i < canon_vals(xs).len() ==> wf(canon_vals(xs)[i]),
{
    lemma_canon_vals(xs);
    assert forall|i: int| #![auto] 0 <= i < canon_vals(xs).len() implies wf(
        canon_vals(xs)[i],
    ) by {
        assert(xs.contains(canon_vals(xs)[i]));
        let j = choose|j: int| 0 <= j < xs.len() && xs[j] == canon_vals(xs)[i];
        assert(wf(xs[j]));
    }
}

} // verus!
