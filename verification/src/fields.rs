//! Ordering labelled arguments by position, and copying scope values.
use vstd::prelude::*;
use crate::ast::{Field, FieldMap};

verus! {

broadcast use vstd::seq_lib::group_seq_properties;

/// Inserts `x` after the last field whose position is not greater than its own.
pub open spec fn insert_field(s: Seq<Field>, x: Field) -> Seq<Field>
    decreases s.len(),
{
    if s.len() == 0 {
        seq![x]
    } else if s.last().index > x.index {
        insert_field(s.drop_last(), x).push(s.last())
    } else {
        s.push(x)
    }
}

/// The fields ordered by position; fields at one position keep their order.
pub open spec fn sort_fields(s: Seq<Field>) -> Seq<Field>
    decreases s.len(),
{
    if s.len() == 0 {
        s
    } else {
        insert_field(sort_fields(s.drop_last()), s.last())
    }
}

proof fn lemma_insert_field_at(s: Seq<Field>, x: Field, p: int)
    requires
        0 <= p <= s.len(),
        forall|j: int| p <= j < s.len() ==> s[j].index > x.index,
        p == 0 || s[p - 1].index <= x.index,
    ensures
        insert_field(s, x) == s.insert(p, x),
    decreases s.len(),
{
    if s.len() == 0 {
        assert(s.insert(p, x) =~= seq![x]);
    } else if s.last().index > x.index {
        lemma_insert_field_at(s.drop_last(), x, p);
        assert(s.drop_last().insert(p, x).push(s.last()) =~= s.insert(p, x));
    } else {
        assert(s.push(x) =~= s.insert(p, x));
    }
}

/// Sorting brings in no new field.
pub proof fn lemma_sort_fields_keeps(s: Seq<Field>, x: Field)
    ensures
        forall|i: int| 0 <= i < sort_fields(s).len() ==> #[trigger] sort_fields(s)[i] == x ==> s.contains(x),
        sort_fields(s).len() == s.len(),
    decreases s.len(),
{
    if s.len() > 0 {
        lemma_sort_fields_keeps(s.drop_last(), x);
        lemma_insert_field_keeps(sort_fields(s.drop_last()), s.last(), x);
        assert forall|i: int| 0 <= i < sort_fields(s).len() && #[trigger] sort_fields(s)[i] == x implies s.contains(x) by {
            let t = sort_fields(s.drop_last());
            if x == s.last() {
                assert(s[s.len() - 1] == x);
            } else {
                let j = choose|j: int| 0 <= j < t.len() && t[j] == x;
                assert(s.drop_last().contains(x));
                let k = choose|k: int| 0 <= k < s.drop_last().len() && s.drop_last()[k] == x;
                assert(s[k] == x);
            }
        }
    }
}

proof fn lemma_insert_field_keeps(s: Seq<Field>, y: Field, x: Field)
    ensures
        insert_field(s, y).len() == s.len() + 1,
        forall|i: int| 0 <= i < insert_field(s, y).len() ==> #[trigger] insert_field(s, y)[i] == x ==> (x == y || exists|j: int| 0 <= j < s.len() && s[j] == x),
    decreases s.len(),
{
    if s.len() > 0 && s.last().index > y.index {
        lemma_insert_field_keeps(s.drop_last(), y, x);
        assert forall|i: int| 0 <= i < insert_field(s, y).len() && #[trigger] insert_field(s, y)[i] == x implies (x == y || exists|j: int| 0 <= j < s.len() && s[j] == x) by {
            let u = insert_field(s.drop_last(), y);
            if i < u.len() {
                assert(u[i] == x);
                if x != y {
                    let j = choose|j: int| 0 <= j < s.drop_last().len() && s.drop_last()[j] == x;
                    assert(s[j] == x);
                }
            } else {
                assert(s[s.len() - 1] == x);
            }
        }
    } else if s.len() > 0 {
        assert forall|i: int| 0 <= i < insert_field(s, y).len() && #[trigger] insert_field(s, y)[i] == x implies (x == y || exists|j: int| 0 <= j < s.len() && s[j] == x) by {
            if i < s.len() {
                assert(s[i] == x);
            }
        }
    }
}

/// A copy of a field.
pub fn copy_field(f: &Field) -> (r: Field)
    ensures
        r == *f,
{
    Field { label: f.label.clone(), index: f.index }
}

/// The fields of a field map, ordered by position (a stable sort).
pub fn sorted_fields(field_map: &FieldMap) -> (r: Vec<Field>)
    ensures
        r@ == sort_fields(field_map.fields@),
{
    let fs = &field_map.fields;
    let mut out: Vec<Field> = Vec::new();
    let n = fs.len();
    let mut i: usize = 0;
    while i < n
        invariant
            n == fs@.len(),
            i <= n,
            out@ == sort_fields(fs@.take(i as int)),
        decreases n - i,
    {
        let x = copy_field(&fs[i]);
        let mut p = out.len();
        while p > 0 && out[p - 1].index > x.index
            invariant
                p <= out@.len(),
                forall|j: int| p <= j < out@.len() ==> out@[j].index > x.index,
            decreases p,
        {
            p = p - 1;
        }
        proof {
            lemma_insert_field_at(out@, x, p as int);
            assert(fs@.take(i + 1).drop_last() == fs@.take(i as int));
        }
        out.insert(p, x);
        i = i + 1;
    }
    assert(fs@.take(n as int) == fs@);
    out
}

/// A copy of a list of fields.
pub fn copy_fields(fs: &Vec<Field>) -> (r: Vec<Field>)
    ensures
        r@ == fs@,
{
    let mut out: Vec<Field> = Vec::new();
    let n = fs.len();
    let mut i: usize = 0;
    while i < n
        invariant
            n == fs@.len(),
            i <= n,
            out@ == fs@.take(i as int),
        decreases n - i,
    {
        out.push(copy_field(&fs[i]));
        i = i + 1;
        assert(out@ =~= fs@.take(i as int));
    }
    assert(fs@.take(n as int) == fs@);
    out
}

} // verus!
