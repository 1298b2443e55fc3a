use vstd::prelude::*;
use crate::ast::{
    Field, FieldModel, FieldSel, FieldSelModel, Sel, Selection, field_sels_model, sels_model,
    lemma_sels_model, duplicate_selections, append_vec,
};

verus! {

// ---------------------------------------------------------------------------
// The selection merger: a group's recorded fields are lowered into one
// normalised selection set.  Fields and fragment spreads are partitioned;
// aliased fields never merge; non-aliased fields of one name collapse into
// the first occurrence, whose sub-selection absorbs the others' and is then
// merged again.  Result order: merged non-aliased fields in first-occurrence
// order, then aliased fields, then fragments, each in original order.
// ---------------------------------------------------------------------------

pub open spec fn sel_is_field(x: Sel) -> bool {
    x is Field
}

pub open spec fn sel_is_aliased(x: Sel) -> bool {
    match x {
        Sel::Field(f) => f.alias is Some,
        _ => false,
    }
}

/// A field selection without an alias: only these may merge.
pub open spec fn sel_is_plain(x: Sel) -> bool {
    match x {
        Sel::Field(f) => f.alias is None,
        _ => false,
    }
}

pub open spec fn sel_fname(x: Sel) -> Seq<char> {
    match x {
        Sel::Field(f) => f.name,
        _ => Seq::empty(),
    }
}

pub open spec fn sel_sub(x: Sel) -> Seq<Sel> {
    match x {
        Sel::Field(f) => f.sub,
        _ => Seq::empty(),
    }
}

// ---------------------------------------------------------------------------
// Sizes, the termination measure of merging.
// ---------------------------------------------------------------------------

pub open spec fn sel_msize(x: Sel) -> nat
    decreases x,
{
    match x {
        Sel::Field(f) => 1 + sels_msize(f.sub),
        Sel::Spread { .. } => 1,
        Sel::Inline { cond: _, sub } => 1 + sels_msize(sub),
    }
}

pub open spec fn sels_msize(s: Seq<Sel>) -> nat
    decreases s,
{
    if s.len() == 0 {
        0
    } else {
        sel_msize(s[0]) + sels_msize(s.drop_first())
    }
}

pub proof fn lemma_sel_msize_pos(x: Sel)
    ensures
        sel_msize(x) >= 1,
{
}

pub proof fn lemma_sels_msize_suffix(s: Seq<Sel>)
    requires
        s.len() > 0,
    ensures
        sels_msize(s) == sel_msize(s[0]) + sels_msize(s.drop_first()),
{
}

// ---------------------------------------------------------------------------
// Partitions of a selection list.
// ---------------------------------------------------------------------------

pub open spec fn plains(s: Seq<Sel>) -> Seq<Sel>
    decreases s,
{
    if s.len() == 0 {
        Seq::empty()
    } else if sel_is_plain(s[0]) {
        seq![s[0]] + plains(s.drop_first())
    } else {
        plains(s.drop_first())
    }
}

pub open spec fn aliased(s: Seq<Sel>) -> Seq<Sel>
    decreases s,
{
    if s.len() == 0 {
        Seq::empty()
    } else if sel_is_aliased(s[0]) {
        seq![s[0]] + aliased(s.drop_first())
    } else {
        aliased(s.drop_first())
    }
}

pub open spec fn frags(s: Seq<Sel>) -> Seq<Sel>
    decreases s,
{
    if s.len() == 0 {
        Seq::empty()
    } else if !sel_is_field(s[0]) {
        seq![s[0]] + frags(s.drop_first())
    } else {
        frags(s.drop_first())
    }
}

/// The plain fields named `n`, in order.
pub open spec fn same_named(s: Seq<Sel>, n: Seq<char>) -> Seq<Sel>
    decreases s,
{
    if s.len() == 0 {
        Seq::empty()
    } else if sel_is_plain(s[0]) && sel_fname(s[0]) == n {
        seq![s[0]] + same_named(s.drop_first(), n)
    } else {
        same_named(s.drop_first(), n)
    }
}

/// Everything but the plain fields named `n`, in order.
pub open spec fn others(s: Seq<Sel>, n: Seq<char>) -> Seq<Sel>
    decreases s,
{
    if s.len() == 0 {
        Seq::empty()
    } else if sel_is_plain(s[0]) && sel_fname(s[0]) == n {
        others(s.drop_first(), n)
    } else {
        seq![s[0]] + others(s.drop_first(), n)
    }
}

/// The concatenation of the sub-selections of the fields in `s`.
pub open spec fn subs_concat(s: Seq<Sel>) -> Seq<Sel>
    decreases s,
{
    if s.len() == 0 {
        Seq::empty()
    } else {
        sel_sub(s[0]) + subs_concat(s.drop_first())
    }
}

// ---------------------------------------------------------------------------
// Size bounds for the partitions.
// ---------------------------------------------------------------------------

pub proof fn lemma_msize_singleton(x: Sel)
    ensures
        sels_msize(seq![x]) == sel_msize(x),
{
    assert(seq![x].drop_first() =~= Seq::<Sel>::empty());
    assert(seq![x][0] == x);
    assert(sels_msize(Seq::<Sel>::empty()) == 0);
}

pub proof fn lemma_partition_msize(s: Seq<Sel>, n: Seq<char>)
    ensures
        sels_msize(same_named(s, n)) + sels_msize(others(s, n)) == sels_msize(s),
    decreases s,
{
    if s.len() > 0 {
        lemma_partition_msize(s.drop_first(), n);
        lemma_msize_singleton(s[0]);
        if sel_is_plain(s[0]) && sel_fname(s[0]) == n {
            lemma_msize_concat(seq![s[0]], same_named(s.drop_first(), n));
        } else {
            lemma_msize_concat(seq![s[0]], others(s.drop_first(), n));
        }
    }
}

pub proof fn lemma_plains_msize(s: Seq<Sel>)
    ensures
        sels_msize(plains(s)) <= sels_msize(s),
        sels_msize(aliased(s)) <= sels_msize(s),
        sels_msize(frags(s)) <= sels_msize(s),
    decreases s,
{
    if s.len() > 0 {
        lemma_plains_msize(s.drop_first());
        lemma_msize_singleton(s[0]);
        if sel_is_plain(s[0]) {
            lemma_msize_concat(seq![s[0]], plains(s.drop_first()));
        }
        if sel_is_aliased(s[0]) {
            lemma_msize_concat(seq![s[0]], aliased(s.drop_first()));
        }
        if !sel_is_field(s[0]) {
            lemma_msize_concat(seq![s[0]], frags(s.drop_first()));
        }
    }
}

pub proof fn lemma_subs_concat_msize(s: Seq<Sel>)
    ensures
        sels_msize(subs_concat(s)) + s.len() <= sels_msize(s),
    decreases s,
{
    if s.len() > 0 {
        lemma_subs_concat_msize(s.drop_first());
        assert(sel_msize(s[0]) >= 1 + sels_msize(sel_sub(s[0]))) by {
            match s[0] {
                Sel::Field(_) => {},
                Sel::Spread { .. } => {},
                Sel::Inline { .. } => {},
            }
        }
        lemma_msize_concat(sel_sub(s[0]), subs_concat(s.drop_first()));
    }
}

pub proof fn lemma_msize_concat(a: Seq<Sel>, b: Seq<Sel>)
    ensures
        sels_msize(a + b) == sels_msize(a) + sels_msize(b),
    decreases a,
{
    if a.len() == 0 {
        assert(a + b =~= b);
    } else {
        lemma_msize_concat(a.drop_first(), b);
        assert((a + b).drop_first() =~= a.drop_first() + b);
        assert((a + b)[0] == a[0]);
    }
}

pub proof fn lemma_same_named_head(s: Seq<Sel>, n: Seq<char>)
    requires
        s.len() > 0,
        sel_is_plain(s[0]),
        sel_fname(s[0]) == n,
    ensures
        same_named(s, n).len() >= 1,
        same_named(s, n)[0] == s[0],
{
    assert(same_named(s, n) == seq![s[0]] + same_named(s.drop_first(), n));
    assert((seq![s[0]] + same_named(s.drop_first(), n))[0] == s[0]);
}

// ---------------------------------------------------------------------------
// The merge itself, at the spec level.
// ---------------------------------------------------------------------------

pub open spec fn merge_sels(s: Seq<Sel>) -> Seq<Sel>
    decreases sels_msize(s), 1int,
    via merge_sels_decreases
{
    merge_plains(plains(s)) + aliased(s) + frags(s)
}

#[via_fn]
proof fn merge_sels_decreases(s: Seq<Sel>) {
    lemma_plains_msize(s);
}

pub open spec fn merge_plains(s: Seq<Sel>) -> Seq<Sel>
    decreases sels_msize(s), 0int,
    via merge_plains_decreases
{
    if s.len() == 0 {
        Seq::empty()
    } else if !sel_is_plain(s[0]) {
        seq![s[0]] + merge_plains(s.drop_first())
    } else {
        let n = sel_fname(s[0]);
        let same = same_named(s, n);
        let rest = others(s, n);
        let head = if same.len() == 1 || sel_sub(s[0]).len() == 0 {
            s[0]
        } else {
            Sel::Field(
                FieldModel {
                    alias: Option::None,
                    name: n,
                    sub: merge_sels(subs_concat(same)),
                },
            )
        };
        seq![head] + merge_plains(rest)
    }
}

#[via_fn]
proof fn merge_plains_decreases(s: Seq<Sel>) {
    if s.len() > 0 {
        lemma_sel_msize_pos(s[0]);
        if !sel_is_plain(s[0]) {
            lemma_sels_msize_suffix(s);
        } else {
            let n = sel_fname(s[0]);
            lemma_partition_msize(s, n);
            lemma_same_named_head(s, n);
            lemma_subs_concat_msize(same_named(s, n));
            lemma_sel_msize_pos(same_named(s, n)[0]);
            lemma_sels_msize_suffix(same_named(s, n));
        }
    }
}

/// The flattened sub-selections of a group's recorded fields, the input the
/// merger lowers.
pub open spec fn field_sels_subs(fs: Seq<FieldSelModel>) -> Seq<Sel>
    decreases fs,
{
    if fs.len() == 0 {
        Seq::empty()
    } else {
        fs[0].node.sub + field_sels_subs(fs.drop_first())
    }
}


// ---------------------------------------------------------------------------
// Executable partitions.
// ---------------------------------------------------------------------------

pub proof fn lemma_sels_model_concat(a: Seq<Selection>, b: Seq<Selection>)
    ensures
        sels_model(a + b) == sels_model(a) + sels_model(b),
    decreases a,
{
    if a.len() == 0 {
        assert(a + b =~= b);
        assert(sels_model(a) =~= Seq::<Sel>::empty());
        assert(sels_model(a) + sels_model(b) =~= sels_model(b));
    } else {
        lemma_sels_model_concat(a.drop_first(), b);
        assert((a + b).drop_first() =~= a.drop_first() + b);
        assert((a + b)[0] == a[0]);
        assert(sels_model(a + b) =~= sels_model(a) + sels_model(b));
    }
}

/// Unfolds the model of a suffix one step.
pub proof fn lemma_sels_model_suffix(v: Seq<Selection>, from: int)
    requires
        0 <= from < v.len(),
    ensures
        sels_model(v.skip(from)) == seq![v[from].model()] + sels_model(v.skip(from + 1)),
{
    let suf = v.skip(from);
    assert(suf.len() > 0);
    assert(suf[0] == v[from]);
    assert(suf.drop_first() =~= v.skip(from + 1));
    assert(sels_model(suf) =~= seq![v[from].model()] + sels_model(v.skip(from + 1)));
}

fn is_field_exec(s: &Selection) -> (r: bool)
    ensures
        r == sel_is_field(s.model()),
{
    match s {
        Selection::Field(_) => true,
        _ => false,
    }
}

fn is_plain_exec(s: &Selection) -> (r: bool)
    ensures
        r == sel_is_plain(s.model()),
{
    match s {
        Selection::Field(f) => f.alias.is_none(),
        _ => false,
    }
}

fn is_aliased_exec(s: &Selection) -> (r: bool)
    ensures
        r == sel_is_aliased(s.model()),
{
    match s {
        Selection::Field(f) => f.alias.is_some(),
        _ => false,
    }
}

fn is_plain_named_exec(s: &Selection, n: &String) -> (r: bool)
    ensures
        r == (sel_is_plain(s.model()) && sel_fname(s.model()) == n@),
{
    match s {
        Selection::Field(f) => f.alias.is_none() && f.name == *n,
        _ => false,
    }
}

fn take_plains(v: &Vec<Selection>, from: usize) -> (r: Vec<Selection>)
    requires
        from <= v@.len(),
    ensures
        sels_model(r@) == plains(sels_model(v@.skip(from as int))),
    decreases v@.len() - from,
{
    if from == v.len() {
        let r: Vec<Selection> = Vec::new();
        proof {
            assert(v@.skip(from as int) =~= Seq::<Selection>::empty());
            assert(sels_model(r@) =~= plains(sels_model(v@.skip(from as int))));
        }
        r
    } else {
        let mut rest = take_plains(v, from + 1);
        proof {
            lemma_sels_model_suffix(v@, from as int);
        }
        if is_plain_exec(&v[from]) {
            let mut r: Vec<Selection> = Vec::new();
            r.push(v[from].duplicate());
            let ghost rest_seq = rest@;
            let ghost rest_m = sels_model(rest@);
            append_vec(&mut r, &mut rest);
            proof {
                assert(r@.drop_first() =~= rest_seq);
                assert(r@[0].model() == v@[from as int].model());
                assert(sels_model(r@) =~= seq![v@[from as int].model()] + rest_m);
                let sm = sels_model(v@.skip(from as int));
                assert(sm[0] == v@[from as int].model());
                assert(sm.drop_first() =~= sels_model(v@.skip(from as int + 1)));
                assert(sels_model(r@) =~= plains(sm));
            }
            r
        } else {
            proof {
                let sm = sels_model(v@.skip(from as int));
                assert(sm[0] == v@[from as int].model());
                assert(sm.drop_first() =~= sels_model(v@.skip(from as int + 1)));
                assert(sels_model(rest@) =~= plains(sm));
            }
            rest
        }
    }
}

fn take_aliased(v: &Vec<Selection>, from: usize) -> (r: Vec<Selection>)
    requires
        from <= v@.len(),
    ensures
        sels_model(r@) == aliased(sels_model(v@.skip(from as int))),
    decreases v@.len() - from,
{
    if from == v.len() {
        let r: Vec<Selection> = Vec::new();
        proof {
            assert(v@.skip(from as int) =~= Seq::<Selection>::empty());
            assert(sels_model(r@) =~= aliased(sels_model(v@.skip(from as int))));
        }
        r
    } else {
        let mut rest = take_aliased(v, from + 1);
        proof {
            lemma_sels_model_suffix(v@, from as int);
        }
        if is_aliased_exec(&v[from]) {
            let mut r: Vec<Selection> = Vec::new();
            r.push(v[from].duplicate());
            let ghost rest_seq = rest@;
            let ghost rest_m = sels_model(rest@);
            append_vec(&mut r, &mut rest);
            proof {
                assert(r@.drop_first() =~= rest_seq);
                assert(r@[0].model() == v@[from as int].model());
                assert(sels_model(r@) =~= seq![v@[from as int].model()] + rest_m);
                let sm = sels_model(v@.skip(from as int));
                assert(sm[0] == v@[from as int].model());
                assert(sm.drop_first() =~= sels_model(v@.skip(from as int + 1)));
                assert(sels_model(r@) =~= aliased(sm));
            }
            r
        } else {
            proof {
                let sm = sels_model(v@.skip(from as int));
                assert(sm[0] == v@[from as int].model());
                assert(sm.drop_first() =~= sels_model(v@.skip(from as int + 1)));
                assert(sels_model(rest@) =~= aliased(sm));
            }
            rest
        }
    }
}

fn take_frags(v: &Vec<Selection>, from: usize) -> (r: Vec<Selection>)
    requires
        from <= v@.len(),
    ensures
        sels_model(r@) == frags(sels_model(v@.skip(from as int))),
    decreases v@.len() - from,
{
    if from == v.len() {
        let r: Vec<Selection> = Vec::new();
        proof {
            assert(v@.skip(from as int) =~= Seq::<Selection>::empty());
            assert(sels_model(r@) =~= frags(sels_model(v@.skip(from as int))));
        }
        r
    } else {
        let mut rest = take_frags(v, from + 1);
        proof {
            lemma_sels_model_suffix(v@, from as int);
        }
        if !is_field_exec(&v[from]) {
            let mut r: Vec<Selection> = Vec::new();
            r.push(v[from].duplicate());
            let ghost rest_seq = rest@;
            let ghost rest_m = sels_model(rest@);
            append_vec(&mut r, &mut rest);
            proof {
                assert(r@.drop_first() =~= rest_seq);
                assert(r@[0].model() == v@[from as int].model());
                assert(sels_model(r@) =~= seq![v@[from as int].model()] + rest_m);
                let sm = sels_model(v@.skip(from as int));
                assert(sm[0] == v@[from as int].model());
                assert(sm.drop_first() =~= sels_model(v@.skip(from as int + 1)));
                assert(sels_model(r@) =~= frags(sm));
            }
            r
        } else {
            proof {
                let sm = sels_model(v@.skip(from as int));
                assert(sm[0] == v@[from as int].model());
                assert(sm.drop_first() =~= sels_model(v@.skip(from as int + 1)));
                assert(sels_model(rest@) =~= frags(sm));
            }
            rest
        }
    }
}

fn take_same_named(v: &Vec<Selection>, n: &String, from: usize) -> (r: Vec<Selection>)
    requires
        from <= v@.len(),
    ensures
        sels_model(r@) == same_named(sels_model(v@.skip(from as int)), n@),
    decreases v@.len() - from,
{
    if from == v.len() {
        let r: Vec<Selection> = Vec::new();
        proof {
            assert(v@.skip(from as int) =~= Seq::<Selection>::empty());
            assert(sels_model(r@) =~= same_named(sels_model(v@.skip(from as int)), n@));
        }
        r
    } else {
        let mut rest = take_same_named(v, n, from + 1);
        proof {
            lemma_sels_model_suffix(v@, from as int);
        }
        if is_plain_named_exec(&v[from], n) {
            let mut r: Vec<Selection> = Vec::new();
            r.push(v[from].duplicate());
            let ghost rest_seq = rest@;
            let ghost rest_m = sels_model(rest@);
            append_vec(&mut r, &mut rest);
            proof {
                assert(r@.drop_first() =~= rest_seq);
                assert(r@[0].model() == v@[from as int].model());
                assert(sels_model(r@) =~= seq![v@[from as int].model()] + rest_m);
                let sm = sels_model(v@.skip(from as int));
                assert(sm[0] == v@[from as int].model());
                assert(sm.drop_first() =~= sels_model(v@.skip(from as int + 1)));
                assert(sels_model(r@) =~= same_named(sm, n@));
            }
            r
        } else {
            proof {
                let sm = sels_model(v@.skip(from as int));
                assert(sm[0] == v@[from as int].model());
                assert(sm.drop_first() =~= sels_model(v@.skip(from as int + 1)));
                assert(sels_model(rest@) =~= same_named(sm, n@));
            }
            rest
        }
    }
}

fn take_others(v: &Vec<Selection>, n: &String, from: usize) -> (r: Vec<Selection>)
    requires
        from <= v@.len(),
    ensures
        sels_model(r@) == others(sels_model(v@.skip(from as int)), n@),
    decreases v@.len() - from,
{
    if from == v.len() {
        let r: Vec<Selection> = Vec::new();
        proof {
            assert(v@.skip(from as int) =~= Seq::<Selection>::empty());
            assert(sels_model(r@) =~= others(sels_model(v@.skip(from as int)), n@));
        }
        r
    } else {
        let mut rest = take_others(v, n, from + 1);
        proof {
            lemma_sels_model_suffix(v@, from as int);
        }
        if !is_plain_named_exec(&v[from], n) {
            let mut r: Vec<Selection> = Vec::new();
            r.push(v[from].duplicate());
            let ghost rest_seq = rest@;
            let ghost rest_m = sels_model(rest@);
            append_vec(&mut r, &mut rest);
            proof {
                assert(r@.drop_first() =~= rest_seq);
                assert(r@[0].model() == v@[from as int].model());
                assert(sels_model(r@) =~= seq![v@[from as int].model()] + rest_m);
                let sm = sels_model(v@.skip(from as int));
                assert(sm[0] == v@[from as int].model());
                assert(sm.drop_first() =~= sels_model(v@.skip(from as int + 1)));
                assert(sels_model(r@) =~= others(sm, n@));
            }
            r
        } else {
            proof {
                let sm = sels_model(v@.skip(from as int));
                assert(sm[0] == v@[from as int].model());
                assert(sm.drop_first() =~= sels_model(v@.skip(from as int + 1)));
                assert(sels_model(rest@) =~= others(sm, n@));
            }
            rest
        }
    }
}

fn take_subs(v: &Vec<Selection>, from: usize) -> (r: Vec<Selection>)
    requires
        from <= v@.len(),
    ensures
        sels_model(r@) == subs_concat(sels_model(v@.skip(from as int))),
    decreases v@.len() - from,
{
    if from == v.len() {
        let r: Vec<Selection> = Vec::new();
        proof {
            assert(v@.skip(from as int) =~= Seq::<Selection>::empty());
            assert(sels_model(r@) =~= subs_concat(sels_model(v@.skip(from as int))));
        }
        r
    } else {
        let mut rest = take_subs(v, from + 1);
        proof {
            lemma_sels_model_suffix(v@, from as int);
        }
        let mut head: Vec<Selection> = match &v[from] {
            Selection::Field(f) => duplicate_selections(&f.selection_set),
            _ => Vec::new(),
        };
        proof {
            assert(sels_model(head@) =~= sel_sub(v@[from as int].model()));
        }
        let ghost head_seq = head@;
        let ghost head_m = sels_model(head@);
        let ghost rest_seq = rest@;
        let ghost rest_m = sels_model(rest@);
        append_vec(&mut head, &mut rest);
        proof {
            assert(head@ == head_seq + rest_seq);
            lemma_sels_model_concat(head_seq, rest_seq);
            let sm = sels_model(v@.skip(from as int));
            assert(sm[0] == v@[from as int].model());
            assert(sm.drop_first() =~= sels_model(v@.skip(from as int + 1)));
            assert(sels_model(head@) =~= subs_concat(sm));
        }
        head
    }
}


// ---------------------------------------------------------------------------
// The executable merger.
// ---------------------------------------------------------------------------

/// Merges one selection list into normal form: non-aliased fields of one
/// name collapse into the first, whose sub-selection absorbs the others'
/// and is merged in turn; aliased fields and fragments follow unchanged.
pub fn merge_field_selection_sets(v: Vec<Selection>) -> (r: Vec<Selection>)
    ensures
        sels_model(r@) == merge_sels(sels_model(v@)),
    decreases sels_msize(sels_model(v@)), 1int,
{
    proof {
        assert(v@.skip(0) =~= v@);
        lemma_plains_msize(sels_model(v@));
    }
    let plains_v = take_plains(&v, 0);
    let mut aliased_v = take_aliased(&v, 0);
    let mut frags_v = take_frags(&v, 0);
    let ghost sm = sels_model(v@);
    let mut r = merge_plains_exec(plains_v);
    let ghost r1 = r@;
    let ghost a_seq = aliased_v@;
    append_vec(&mut r, &mut aliased_v);
    let ghost r2 = r@;
    let ghost f_seq = frags_v@;
    append_vec(&mut r, &mut frags_v);
    proof {
        lemma_sels_model_concat(r1, a_seq);
        lemma_sels_model_concat(r2, f_seq);
        assert(r2 == r1 + a_seq);
        assert(r@ == r2 + f_seq);
        assert(sels_model(r@) =~= merge_plains(plains(sm)) + aliased(sm) + frags(sm));
    }
    r
}

fn merge_plains_exec(v: Vec<Selection>) -> (r: Vec<Selection>)
    ensures
        sels_model(r@) == merge_plains(sels_model(v@)),
    decreases sels_msize(sels_model(v@)), 0int,
{
    if v.len() == 0 {
        proof {
            assert(sels_model(v@) =~= Seq::<Sel>::empty());
        }
        return v;
    }
    let ghost sm = sels_model(v@);
    proof {
        lemma_sels_model(v@);
        lemma_sels_msize_suffix(sm);
        lemma_sel_msize_pos(sm[0]);
    }
    if !is_plain_exec(&v[0]) {
        let mut vv = v;
        let head0 = vv.remove(0);
        proof {
            assert(sels_model(vv@) =~= sm.drop_first()) by {
                lemma_sels_model(vv@);
                assert forall|k: int| 0 <= k < vv@.len() implies sels_model(vv@)[k] == sm.drop_first()[k] by {
                    assert(vv@[k] == v@[k + 1]);
                }
            }
        }
        let mut rest = merge_plains_exec(vv);
        let mut r: Vec<Selection> = Vec::new();
        r.push(head0);
        let ghost rest_seq = rest@;
        let ghost rest_m = sels_model(rest@);
        append_vec(&mut r, &mut rest);
        proof {
            assert(r@.drop_first() =~= rest_seq);
            assert(r@[0].model() == sm[0]);
            assert(sels_model(r@) =~= seq![sm[0]] + rest_m);
        }
        return r;
    }
    let (head_name, head_sub_empty): (String, bool) = match &v[0] {
        Selection::Field(f) => (f.name.clone(), f.selection_set.len() == 0),
        _ => {
            proof {
                assert(false);
            }
            unreached()
        },
    };
    proof {
        assert(head_name@ == sel_fname(sm[0]));
        assert(head_sub_empty == (sel_sub(sm[0]).len() == 0)) by {
            match v@[0] {
                Selection::Field(f) => {
                    lemma_sels_model(f.selection_set@);
                },
                _ => {},
            }
        }
        assert(v@.skip(0) =~= v@);
    }
    let same = take_same_named(&v, &head_name, 0);
    let rest = take_others(&v, &head_name, 0);
    let ghost n = head_name@;
    proof {
        lemma_sels_model(same@);
        lemma_partition_msize(sm, n);
        lemma_same_named_head(sm, n);
        lemma_sels_msize_suffix(same_named(sm, n));
        lemma_sel_msize_pos(same_named(sm, n)[0]);
        lemma_subs_concat_msize(same_named(sm, n));
    }
    let nothing = same.len() == 1 || head_sub_empty;
    let head_sel: Selection;
    if !nothing {
        proof {
            assert(same@.skip(0) =~= same@);
        }
        let subs = take_subs(&same, 0);
        proof {
            assert(sels_model(subs@) == subs_concat(same_named(sm, n)));
        }
        let merged_sub = merge_field_selection_sets(subs);
        head_sel = Selection::Field(
            Field { alias: Option::None, name: head_name, selection_set: merged_sub },
        );
        proof {
            assert(head_sel.model() =~~= Sel::Field(
                FieldModel {
                    alias: Option::None,
                    name: n,
                    sub: merge_sels(subs_concat(same_named(sm, n))),
                },
            ));
        }
    } else {
        head_sel = v[0].duplicate();
        proof {
            assert(head_sel.model() == sm[0]);
        }
    }
    let mut rest_merged = merge_plains_exec(rest);
    let mut r: Vec<Selection> = Vec::new();
    r.push(head_sel);
    let ghost head_m = head_sel.model();
    let ghost rest_seq = rest_merged@;
    let ghost rest_m = sels_model(rest_merged@);
    append_vec(&mut r, &mut rest_merged);
    proof {
        assert(r@.drop_first() =~= rest_seq);
        assert(r@[0].model() == head_m);
        assert(sels_model(r@) =~= seq![head_m] + rest_m);
        assert(sels_model(r@) == merge_plains(sm));
    }
    r
}

/// Lowers a group's recorded fields into the normalised selection set to be
/// sent to the subgraph: the fields' sub-selections, flattened and merged.
pub fn merge_selection_sets(fields: Vec<FieldSel>) -> (r: Vec<Selection>)
    ensures
        sels_model(r@) == merge_sels(field_sels_subs(field_sels_model(fields@))),
{
    let flat = flatten_field_sels(&fields, 0);
    proof {
        assert(fields@.skip(0) =~= fields@);
        assert(field_sels_model(fields@.skip(0)) =~= field_sels_model(fields@));
    }
    let r = merge_field_selection_sets(flat);
    r
}

fn flatten_field_sels(fields: &Vec<FieldSel>, from: usize) -> (r: Vec<Selection>)
    requires
        from <= fields@.len(),
    ensures
        sels_model(r@) == field_sels_subs(field_sels_model(fields@.skip(from as int))),
    decreases fields@.len() - from,
{
    if from == fields.len() {
        let r: Vec<Selection> = Vec::new();
        proof {
            assert(fields@.skip(from as int) =~= Seq::<FieldSel>::empty());
            assert(field_sels_model(fields@.skip(from as int)) =~= Seq::<FieldSelModel>::empty());
            assert(sels_model(r@) =~= field_sels_subs(field_sels_model(fields@.skip(from as int))));
        }
        r
    } else {
        let mut rest = flatten_field_sels(fields, from + 1);
        let mut head = duplicate_selections(&fields[from].node.selection_set);
        let ghost head_seq = head@;
        let ghost rest_seq = rest@;
        let ghost rest_m = sels_model(rest@);
        append_vec(&mut head, &mut rest);
        proof {
            assert(head@ == head_seq + rest_seq);
            lemma_sels_model_concat(head_seq, rest_seq);
            let fm = field_sels_model(fields@.skip(from as int));
            assert(fm.len() > 0);
            assert(fm[0] == fields@[from as int].model());
            assert(fm.drop_first() =~= field_sels_model(fields@.skip(from as int + 1)));
            assert(sels_model(head_seq) == fm[0].node.sub);
            assert(sels_model(head@) =~= field_sels_subs(fm));
        }
        head
    }
}


// ---------------------------------------------------------------------------
// Merge idempotence.
// ---------------------------------------------------------------------------

pub open spec fn all_plain(s: Seq<Sel>) -> bool {
    forall|i: int| 0 <= i < s.len() ==> sel_is_plain(#[trigger] s[i])
}

pub open spec fn all_aliased(s: Seq<Sel>) -> bool {
    forall|i: int| 0 <= i < s.len() ==> sel_is_aliased(#[trigger] s[i])
}

pub open spec fn all_frag(s: Seq<Sel>) -> bool {
    forall|i: int| 0 <= i < s.len() ==> !sel_is_field(#[trigger] s[i])
}

pub open spec fn none_named(s: Seq<Sel>, n: Seq<char>) -> bool {
    forall|i: int| 0 <= i < s.len() ==> sel_fname(#[trigger] s[i]) != n
}

proof fn lemma_drop_first_all<A>(s: Seq<A>)
    requires
        s.len() > 0,
    ensures
        forall|i: int| 0 <= i < s.len() - 1 ==> #[trigger] s.drop_first()[i] == s[i + 1],
{
}

/// The three top-level filters pick elements of the matching kind only, and
/// leave a list of that kind unchanged.
proof fn lemma_filters_typed(s: Seq<Sel>)
    ensures
        all_plain(plains(s)),
        all_aliased(aliased(s)),
        all_frag(frags(s)),
    decreases s,
{
    if s.len() > 0 {
        lemma_filters_typed(s.drop_first());
        if sel_is_plain(s[0]) {
            assert forall|i: int| 0 <= i < plains(s).len() implies sel_is_plain(#[trigger] plains(s)[i]) by {
                if i > 0 {
                    assert(plains(s)[i] == plains(s.drop_first())[i - 1]);
                }
            }
        }
        if sel_is_aliased(s[0]) {
            assert forall|i: int| 0 <= i < aliased(s).len() implies sel_is_aliased(
                #[trigger] aliased(s)[i],
            ) by {
                if i > 0 {
                    assert(aliased(s)[i] == aliased(s.drop_first())[i - 1]);
                }
            }
        }
        if !sel_is_field(s[0]) {
            assert forall|i: int| 0 <= i < frags(s).len() implies !sel_is_field(#[trigger] frags(s)[i]) by {
                if i > 0 {
                    assert(frags(s)[i] == frags(s.drop_first())[i - 1]);
                }
            }
        }
    }
}

proof fn lemma_filters_identity(s: Seq<Sel>)
    ensures
        all_plain(s) ==> plains(s) == s && aliased(s) == Seq::<Sel>::empty() && frags(s) == Seq::<
            Sel,
        >::empty(),
        all_aliased(s) ==> aliased(s) == s && plains(s) == Seq::<Sel>::empty() && frags(s) == Seq::<
            Sel,
        >::empty(),
        all_frag(s) ==> frags(s) == s && plains(s) == Seq::<Sel>::empty() && aliased(s) == Seq::<
            Sel,
        >::empty(),
    decreases s,
{
    if s.len() > 0 {
        lemma_drop_first_all(s);
        lemma_filters_identity(s.drop_first());
        if all_plain(s) {
            assert(all_plain(s.drop_first()));
            assert(plains(s) =~= s);
        }
        if all_aliased(s) {
            assert(all_aliased(s.drop_first()));
            assert(aliased(s) =~= s);
        }
        if all_frag(s) {
            assert(all_frag(s.drop_first()));
            assert(frags(s) =~= s);
        }
    }
}

proof fn lemma_filters_concat(a: Seq<Sel>, b: Seq<Sel>)
    ensures
        plains(a + b) == plains(a) + plains(b),
        aliased(a + b) == aliased(a) + aliased(b),
        frags(a + b) == frags(a) + frags(b),
    decreases a,
{
    if a.len() == 0 {
        assert(a + b =~= b);
        assert(plains(a) + plains(b) =~= plains(b));
        assert(aliased(a) + aliased(b) =~= aliased(b));
        assert(frags(a) + frags(b) =~= frags(b));
    } else {
        lemma_filters_concat(a.drop_first(), b);
        assert((a + b).drop_first() =~= a.drop_first() + b);
        assert((a + b)[0] == a[0]);
        assert(plains(a + b) =~= plains(a) + plains(b));
        assert(aliased(a + b) =~= aliased(a) + aliased(b));
        assert(frags(a + b) =~= frags(a) + frags(b));
    }
}

/// With no element named `n`, grouping by `n` finds nothing and removes
/// nothing.
proof fn lemma_none_named_filters(s: Seq<Sel>, n: Seq<char>)
    requires
        none_named(s, n),
    ensures
        same_named(s, n) == Seq::<Sel>::empty(),
        others(s, n) == s,
    decreases s,
{
    if s.len() > 0 {
        lemma_drop_first_all(s);
        assert(none_named(s.drop_first(), n));
        lemma_none_named_filters(s.drop_first(), n);
        assert(others(s, n) =~= s);
    }
}

/// Grouping filters keep plainness, and keep the absence of a name.
proof fn lemma_others_props(s: Seq<Sel>, n0: Seq<char>, n: Seq<char>)
    requires
        all_plain(s),
    ensures
        all_plain(others(s, n0)),
        all_plain(same_named(s, n0)),
        none_named(s, n) ==> none_named(others(s, n0), n),
        none_named(others(s, n0), n0),
    decreases s,
{
    if s.len() > 0 {
        lemma_drop_first_all(s);
        assert(all_plain(s.drop_first()));
        lemma_others_props(s.drop_first(), n0, n);
        if sel_is_plain(s[0]) && sel_fname(s[0]) == n0 {
        } else {
            assert forall|i: int| 0 <= i < others(s, n0).len() implies sel_is_plain(
                #[trigger] others(s, n0)[i],
            ) && sel_fname(others(s, n0)[i]) != n0 && (none_named(s, n) ==> sel_fname(others(s, n0)[i])
                != n) by {
                if i > 0 {
                    assert(others(s, n0)[i] == others(s.drop_first(), n0)[i - 1]);
                }
            }
        }
        assert forall|i: int| 0 <= i < same_named(s, n0).len() implies sel_is_plain(
            #[trigger] same_named(s, n0)[i],
        ) by {
            if sel_is_plain(s[0]) && sel_fname(s[0]) == n0 {
                if i > 0 {
                    assert(same_named(s, n0)[i] == same_named(s.drop_first(), n0)[i - 1]);
                }
            }
        }
    }
}

/// Merging a list of plain fields yields plain fields whose names all come
/// from the input.
proof fn lemma_merge_plains_shape(s: Seq<Sel>, n: Seq<char>)
    requires
        all_plain(s),
    ensures
        all_plain(merge_plains(s)),
        none_named(s, n) ==> none_named(merge_plains(s), n),
    decreases sels_msize(s),
{
    if s.len() > 0 {
        let n0 = sel_fname(s[0]);
        let rest = others(s, n0);
        lemma_others_props(s, n0, n);
        lemma_partition_msize(s, n0);
        lemma_same_named_head(s, n0);
        lemma_sels_msize_suffix(same_named(s, n0));
        lemma_sel_msize_pos(s[0]);
        lemma_merge_plains_shape(rest, n);
        let m = merge_plains(s);
        assert(m.len() > 0);
        assert(m[0] == (if same_named(s, n0).len() == 1 || sel_sub(s[0]).len() == 0 {
            s[0]
        } else {
            Sel::Field(
                FieldModel {
                    alias: Option::None,
                    name: n0,
                    sub: merge_sels(subs_concat(same_named(s, n0))),
                },
            )
        }));
        assert(sel_is_plain(m[0]) && sel_fname(m[0]) == n0);
        assert(m.drop_first() =~= merge_plains(rest));
        assert forall|i: int| 0 <= i < m.len() implies sel_is_plain(#[trigger] m[i]) by {
            if i > 0 {
                assert(m[i] == merge_plains(rest)[i - 1]);
            }
        }
        if none_named(s, n) {
            assert(sel_fname(s[0]) != n);
            assert forall|i: int| 0 <= i < m.len() implies sel_fname(#[trigger] m[i]) != n by {
                if i > 0 {
                    assert(m[i] == merge_plains(rest)[i - 1]);
                }
            }
        }
    }
}

/// Re-merging an already merged list of plain fields yields it unchanged:
/// all names are distinct after the first pass, so every group is a
/// singleton the second time around.
proof fn lemma_merge_plains_idempotent(s: Seq<Sel>)
    requires
        all_plain(s),
    ensures
        merge_plains(merge_plains(s)) == merge_plains(s),
    decreases sels_msize(s),
{
    if s.len() > 0 {
        let n0 = sel_fname(s[0]);
        let rest = others(s, n0);
        lemma_others_props(s, n0, n0);
        lemma_partition_msize(s, n0);
        lemma_same_named_head(s, n0);
        lemma_sels_msize_suffix(same_named(s, n0));
        lemma_sel_msize_pos(s[0]);
        lemma_merge_plains_idempotent(rest);
        lemma_merge_plains_shape(rest, n0);
        let m = merge_plains(s);
        let head = m[0];
        let mp_rest = merge_plains(rest);
        assert(m.drop_first() =~= mp_rest);
        assert(sel_is_plain(head) && sel_fname(head) == n0);
        // the second pass finds a singleton group for the head's name
        lemma_none_named_filters(mp_rest, n0);
        assert(same_named(m, n0) =~= seq![head] + same_named(mp_rest, n0));
        assert(same_named(m, n0) =~= seq![head]);
        assert(same_named(m, n0).len() == 1);
        assert(others(m, n0) =~= mp_rest);
        assert(merge_plains(m) == seq![head] + merge_plains(mp_rest));
        assert(merge_plains(m) =~= m);
    }
}

/// Merge idempotence: applying the merger to an already-merged selection
/// list yields an equal list, field order and structure included.
pub proof fn lemma_merge_idempotent(s: Seq<Sel>)
    ensures
        merge_sels(merge_sels(s)) == merge_sels(s),
{
    let p = plains(s);
    let al = aliased(s);
    let fr = frags(s);
    let mp = merge_plains(p);
    let m = merge_sels(s);
    lemma_filters_typed(s);
    lemma_merge_plains_shape(p, Seq::empty());
    lemma_filters_identity(mp);
    lemma_filters_identity(al);
    lemma_filters_identity(fr);
    lemma_filters_concat(mp, al + fr);
    lemma_filters_concat(al, fr);
    assert(m =~= mp + (al + fr));
    assert(plains(m) =~= mp);
    assert(aliased(m) =~= al);
    assert(frags(m) =~= fr);
    lemma_merge_plains_idempotent(p);
    assert(merge_sels(m) =~= m);
}


// ---------------------------------------------------------------------------
// Grouping selections by field name, preserving first-occurrence order.
// ---------------------------------------------------------------------------

/// The selections whose field name is `n`, in order.
pub open spec fn named(s: Seq<Sel>, n: Seq<char>) -> Seq<Sel>
    decreases s,
{
    if s.len() == 0 {
        Seq::empty()
    } else if sel_fname(s[0]) == n {
        seq![s[0]] + named(s.drop_first(), n)
    } else {
        named(s.drop_first(), n)
    }
}

/// The selections whose field name is not `n`, in order.
pub open spec fn unnamed(s: Seq<Sel>, n: Seq<char>) -> Seq<Sel>
    decreases s,
{
    if s.len() == 0 {
        Seq::empty()
    } else if sel_fname(s[0]) == n {
        unnamed(s.drop_first(), n)
    } else {
        seq![s[0]] + unnamed(s.drop_first(), n)
    }
}

pub proof fn lemma_unnamed_len(s: Seq<Sel>, n: Seq<char>)
    ensures
        unnamed(s, n).len() <= s.len(),
        s.len() > 0 && sel_fname(s[0]) == n ==> unnamed(s, n).len() < s.len(),
    decreases s,
{
    if s.len() > 0 {
        lemma_unnamed_len(s.drop_first(), n);
    }
}

/// Grouping by field name: one group per distinct name, keyed in
/// first-occurrence order, each holding its selections in original order.
pub open spec fn group_by_spec(s: Seq<Sel>) -> Seq<(Seq<char>, Seq<Sel>)>
    decreases s.len(),
    via group_by_spec_decreases
{
    if s.len() == 0 {
        Seq::empty()
    } else {
        let n = sel_fname(s[0]);
        seq![(n, named(s, n))] + group_by_spec(unnamed(s, n))
    }
}

#[via_fn]
proof fn group_by_spec_decreases(s: Seq<Sel>) {
    if s.len() > 0 {
        lemma_unnamed_len(s, sel_fname(s[0]));
    }
}

pub open spec fn pairs_model(s: Seq<(String, Vec<Selection>)>) -> Seq<(Seq<char>, Seq<Sel>)> {
    Seq::new(s.len(), |i: int| ((s[i].0)@, sels_model((s[i].1)@)))
}

fn take_named(v: &Vec<Selection>, n: &String, from: usize) -> (r: Vec<Selection>)
    requires
        from <= v@.len(),
    ensures
        sels_model(r@) == named(sels_model(v@.skip(from as int)), n@),
    decreases v@.len() - from,
{
    if from == v.len() {
        let r: Vec<Selection> = Vec::new();
        proof {
            assert(v@.skip(from as int) =~= Seq::<Selection>::empty());
            assert(sels_model(r@) =~= named(sels_model(v@.skip(from as int)), n@));
        }
        r
    } else {
        let mut rest = take_named(v, n, from + 1);
        proof {
            lemma_sels_model_suffix(v@, from as int);
        }
        let matches_name = match &v[from] {
            Selection::Field(f) => f.name == *n,
            _ => *n == String::new(),
        };
        proof {
            let sm = sels_model(v@.skip(from as int));
            assert(sm[0] == v@[from as int].model());
            assert(sm.drop_first() =~= sels_model(v@.skip(from as int + 1)));
            assert(matches_name == (sel_fname(sm[0]) == n@)) by {
                match v@[from as int] {
                    Selection::Field(_) => {},
                    Selection::FragmentSpread(_) => {},
                    Selection::InlineFragment(_) => {},
                }
            }
        }
        if matches_name {
            let mut r: Vec<Selection> = Vec::new();
            r.push(v[from].duplicate());
            let ghost rest_seq = rest@;
            let ghost rest_m = sels_model(rest@);
            append_vec(&mut r, &mut rest);
            proof {
                assert(r@.drop_first() =~= rest_seq);
                assert(r@[0].model() == v@[from as int].model());
                assert(sels_model(r@) =~= seq![v@[from as int].model()] + rest_m);
                assert(sels_model(r@) =~= named(sels_model(v@.skip(from as int)), n@));
            }
            r
        } else {
            proof {
                assert(sels_model(rest@) =~= named(sels_model(v@.skip(from as int)), n@));
            }
            rest
        }
    }
}

fn take_unnamed(v: &Vec<Selection>, n: &String, from: usize) -> (r: Vec<Selection>)
    requires
        from <= v@.len(),
    ensures
        sels_model(r@) == unnamed(sels_model(v@.skip(from as int)), n@),
    decreases v@.len() - from,
{
    if from == v.len() {
        let r: Vec<Selection> = Vec::new();
        proof {
            assert(v@.skip(from as int) =~= Seq::<Selection>::empty());
            assert(sels_model(r@) =~= unnamed(sels_model(v@.skip(from as int)), n@));
        }
        r
    } else {
        let mut rest = take_unnamed(v, n, from + 1);
        proof {
            lemma_sels_model_suffix(v@, from as int);
        }
        let matches_name = match &v[from] {
            Selection::Field(f) => f.name == *n,
            _ => *n == String::new(),
        };
        proof {
            let sm = sels_model(v@.skip(from as int));
            assert(sm[0] == v@[from as int].model());
            assert(sm.drop_first() =~= sels_model(v@.skip(from as int + 1)));
            assert(matches_name == (sel_fname(sm[0]) == n@)) by {
                match v@[from as int] {
                    Selection::Field(_) => {},
                    Selection::FragmentSpread(_) => {},
                    Selection::InlineFragment(_) => {},
                }
            }
        }
        if !matches_name {
            let mut r: Vec<Selection> = Vec::new();
            r.push(v[from].duplicate());
            let ghost rest_seq = rest@;
            let ghost rest_m = sels_model(rest@);
            append_vec(&mut r, &mut rest);
            proof {
                assert(r@.drop_first() =~= rest_seq);
                assert(r@[0].model() == v@[from as int].model());
                assert(sels_model(r@) =~= seq![v@[from as int].model()] + rest_m);
                assert(sels_model(r@) =~= unnamed(sels_model(v@.skip(from as int)), n@));
            }
            r
        } else {
            proof {
                assert(sels_model(rest@) =~= unnamed(sels_model(v@.skip(from as int)), n@));
            }
            rest
        }
    }
}

/// Groups selections by field name, in first-occurrence order; a non-field
/// selection groups under the empty name.
pub fn group_by(v: Vec<Selection>) -> (r: Vec<(String, Vec<Selection>)>)
    ensures
        pairs_model(r@) == group_by_spec(sels_model(v@)),
{
    let ghost full = group_by_spec(sels_model(v@));
    let mut cur = v;
    let mut r: Vec<(String, Vec<Selection>)> = Vec::new();
    proof {
        assert(pairs_model(r@) =~= Seq::<(Seq<char>, Seq<Sel>)>::empty());
        assert(full =~= pairs_model(r@) + group_by_spec(sels_model(cur@)));
    }
    while cur.len() > 0
        invariant
            full == pairs_model(r@) + group_by_spec(sels_model(cur@)),
        decreases cur@.len(),
    {
        let ghost cm = sels_model(cur@);
        proof {
            lemma_sels_model(cur@);
        }
        let head_name: String = match &cur[0] {
            Selection::Field(f) => f.name.clone(),
            _ => String::new(),
        };
        proof {
            assert(cm[0] == cur@[0].model());
            assert(head_name@ == sel_fname(cm[0])) by {
                match cur@[0] {
                    Selection::Field(_) => {},
                    Selection::FragmentSpread(_) => {},
                    Selection::InlineFragment(_) => {},
                }
            }
            assert(cur@.skip(0) =~= cur@);
        }
        let group = take_named(&cur, &head_name, 0);
        let rest = take_unnamed(&cur, &head_name, 0);
        proof {
            lemma_unnamed_len(cm, head_name@);
            assert(sels_model(rest@).len() == rest@.len()) by {
                lemma_sels_model(rest@);
            }
            assert(cm.len() == cur@.len());
        }
        let ghost r0 = pairs_model(r@);
        let ghost rv0 = r@;
        r.push((head_name, group));
        proof {
            assert forall|j: int| 0 <= j < r@.len() implies pairs_model(r@)[j] == r0.push(
                (sel_fname(cm[0]), named(cm, sel_fname(cm[0]))),
            )[j] by {
                if j < r0.len() {
                    assert(r@[j] == rv0[j]);
                }
            }
        }
        proof {
            assert(pairs_model(r@) =~= r0.push((sel_fname(cm[0]), named(cm, sel_fname(cm[0])))));
            assert(group_by_spec(cm) == seq![(sel_fname(cm[0]), named(cm, sel_fname(cm[0])))]
                + group_by_spec(unnamed(cm, sel_fname(cm[0]))));
            assert(full =~= pairs_model(r@) + group_by_spec(sels_model(rest@)));
        }
        cur = rest;
    }
    proof {
        assert(sels_model(cur@) =~= Seq::<Sel>::empty());
        assert(group_by_spec(sels_model(cur@)) =~= Seq::<(Seq<char>, Seq<Sel>)>::empty());
        assert(full =~= pairs_model(r@));
    }
    r
}


// ---------------------------------------------------------------------------
// The merger keeps every selected name: collapsing duplicates never drops a
// plain field's name, so whatever a dependent group requires by name is
// still requested after the parent's selection is merged.
// ---------------------------------------------------------------------------

pub open spec fn has_plain_named(s: Seq<Sel>, n: Seq<char>) -> bool {
    exists|i: int| 0 <= i < s.len() && sel_is_plain(#[trigger] s[i]) && sel_fname(s[i]) == n
}

proof fn lemma_plains_has_named(s: Seq<Sel>, n: Seq<char>)
    ensures
        has_plain_named(plains(s), n) <==> has_plain_named(s, n),
    decreases s,
{
    if s.len() > 0 {
        lemma_plains_has_named(s.drop_first(), n);
        lemma_drop_first_all(s);
        if sel_is_plain(s[0]) {
            let p = plains(s);
            assert(p[0] == s[0]);
            assert(p.drop_first() =~= plains(s.drop_first()));
            if has_plain_named(s, n) {
                let i = choose|i: int|
                    0 <= i < s.len() && sel_is_plain(#[trigger] s[i]) && sel_fname(s[i]) == n;
                if i == 0 {
                    assert(sel_is_plain(p[0]) && sel_fname(p[0]) == n);
                } else {
                    assert(s.drop_first()[i - 1] == s[i]);
                    assert(has_plain_named(s.drop_first(), n));
                    let j = choose|j: int|
                        0 <= j < plains(s.drop_first()).len() && sel_is_plain(
                            #[trigger] plains(s.drop_first())[j],
                        ) && sel_fname(plains(s.drop_first())[j]) == n;
                    assert(p[j + 1] == plains(s.drop_first())[j]);
                }
            }
            if has_plain_named(p, n) {
                let i = choose|i: int|
                    0 <= i < p.len() && sel_is_plain(#[trigger] p[i]) && sel_fname(p[i]) == n;
                if i == 0 {
                } else {
                    assert(p[i] == plains(s.drop_first())[i - 1]);
                    assert(has_plain_named(plains(s.drop_first()), n));
                    let j = choose|j: int|
                        0 <= j < s.drop_first().len() && sel_is_plain(#[trigger] s.drop_first()[j])
                            && sel_fname(s.drop_first()[j]) == n;
                    assert(s[j + 1] == s.drop_first()[j]);
                }
            }
        } else {
            assert(plains(s) =~= plains(s.drop_first()));
            if has_plain_named(s, n) {
                let i = choose|i: int|
                    0 <= i < s.len() && sel_is_plain(#[trigger] s[i]) && sel_fname(s[i]) == n;
                assert(i > 0);
                assert(s.drop_first()[i - 1] == s[i]);
                assert(has_plain_named(s.drop_first(), n));
            }
            if has_plain_named(s.drop_first(), n) {
                let j = choose|j: int|
                    0 <= j < s.drop_first().len() && sel_is_plain(#[trigger] s.drop_first()[j])
                        && sel_fname(s.drop_first()[j]) == n;
                assert(s[j + 1] == s.drop_first()[j]);
            }
        }
    }
}

proof fn lemma_others_has_named(s: Seq<Sel>, n0: Seq<char>, n: Seq<char>)
    requires
        n != n0,
    ensures
        has_plain_named(others(s, n0), n) <==> has_plain_named(s, n),
    decreases s,
{
    if s.len() > 0 {
        lemma_others_has_named(s.drop_first(), n0, n);
        lemma_drop_first_all(s);
        let o = others(s, n0);
        if sel_is_plain(s[0]) && sel_fname(s[0]) == n0 {
            assert(o =~= others(s.drop_first(), n0));
            if has_plain_named(s, n) {
                let i = choose|i: int|
                    0 <= i < s.len() && sel_is_plain(#[trigger] s[i]) && sel_fname(s[i]) == n;
                assert(i > 0);
                assert(s.drop_first()[i - 1] == s[i]);
                assert(has_plain_named(s.drop_first(), n));
            }
            if has_plain_named(s.drop_first(), n) {
                let j = choose|j: int|
                    0 <= j < s.drop_first().len() && sel_is_plain(#[trigger] s.drop_first()[j])
                        && sel_fname(s.drop_first()[j]) == n;
                assert(s[j + 1] == s.drop_first()[j]);
            }
        } else {
            assert(o[0] == s[0]);
            assert(o.drop_first() =~= others(s.drop_first(), n0));
            if has_plain_named(s, n) {
                let i = choose|i: int|
                    0 <= i < s.len() && sel_is_plain(#[trigger] s[i]) && sel_fname(s[i]) == n;
                if i == 0 {
                    assert(sel_is_plain(o[0]) && sel_fname(o[0]) == n);
                } else {
                    assert(s.drop_first()[i - 1] == s[i]);
                    assert(has_plain_named(s.drop_first(), n));
                    let j = choose|j: int|
                        0 <= j < others(s.drop_first(), n0).len() && sel_is_plain(
                            #[trigger] others(s.drop_first(), n0)[j],
                        ) && sel_fname(others(s.drop_first(), n0)[j]) == n;
                    assert(o[j + 1] == others(s.drop_first(), n0)[j]);
                }
            }
            if has_plain_named(o, n) {
                let i = choose|i: int|
                    0 <= i < o.len() && sel_is_plain(#[trigger] o[i]) && sel_fname(o[i]) == n;
                if i == 0 {
                } else {
                    assert(o[i] == others(s.drop_first(), n0)[i - 1]);
                    assert(has_plain_named(others(s.drop_first(), n0), n));
                    let j = choose|j: int|
                        0 <= j < s.drop_first().len() && sel_is_plain(#[trigger] s.drop_first()[j])
                            && sel_fname(s.drop_first()[j]) == n;
                    assert(s[j + 1] == s.drop_first()[j]);
                }
            }
        }
    }
}

proof fn lemma_merge_plains_has_named(s: Seq<Sel>, n: Seq<char>)
    requires
        all_plain(s),
    ensures
        has_plain_named(merge_plains(s), n) <==> has_plain_named(s, n),
    decreases sels_msize(s),
{
    if s.len() > 0 {
        let n0 = sel_fname(s[0]);
        let rest = others(s, n0);
        lemma_others_props(s, n0, n);
        lemma_partition_msize(s, n0);
        lemma_same_named_head(s, n0);
        lemma_sels_msize_suffix(same_named(s, n0));
        lemma_sel_msize_pos(s[0]);
        lemma_merge_plains_has_named(rest, n);
        let m = merge_plains(s);
        let head = m[0];
        assert(sel_is_plain(head) && sel_fname(head) == n0);
        assert(m.drop_first() =~= merge_plains(rest));
        if n == n0 {
            assert(sel_is_plain(m[0]) && sel_fname(m[0]) == n);
            assert(has_plain_named(m, n));
            assert(sel_is_plain(s[0]) && sel_fname(s[0]) == n);
            assert(has_plain_named(s, n));
        } else {
            lemma_others_has_named(s, n0, n);
            if has_plain_named(merge_plains(rest), n) {
                let j = choose|j: int|
                    0 <= j < merge_plains(rest).len() && sel_is_plain(#[trigger] merge_plains(rest)[j])
                        && sel_fname(merge_plains(rest)[j]) == n;
                assert(m[j + 1] == merge_plains(rest)[j]);
                assert(has_plain_named(m, n));
            }
            if has_plain_named(m, n) {
                let i = choose|i: int|
                    0 <= i < m.len() && sel_is_plain(#[trigger] m[i]) && sel_fname(m[i]) == n;
                assert(i > 0);
                assert(m[i] == merge_plains(rest)[i - 1]);
                assert(has_plain_named(merge_plains(rest), n));
            }
        }
    }
}

/// Merging never drops a selected name: the merged selection set requests a
/// plain field of a given name exactly when the unmerged one did.  In
/// particular, whatever key or required field a dependent group names stays
/// requested after the parent's selection is merged.
pub proof fn lemma_merge_preserves_names(s: Seq<Sel>, n: Seq<char>)
    ensures
        has_plain_named(merge_sels(s), n) <==> has_plain_named(s, n),
{
    let p = plains(s);
    let al = aliased(s);
    let fr = frags(s);
    let mp = merge_plains(p);
    lemma_filters_typed(s);
    lemma_plains_has_named(s, n);
    lemma_merge_plains_has_named(p, n);
    let m = merge_sels(s);
    assert(m == mp + al + fr);
    if has_plain_named(mp, n) {
        let i = choose|i: int|
            0 <= i < mp.len() && sel_is_plain(#[trigger] mp[i]) && sel_fname(mp[i]) == n;
        assert(m[i] == mp[i]);
        assert(has_plain_named(m, n));
    }
    if has_plain_named(m, n) {
        let i = choose|i: int|
            0 <= i < m.len() && sel_is_plain(#[trigger] m[i]) && sel_fname(m[i]) == n;
        if i < mp.len() {
            assert(m[i] == mp[i]);
            assert(has_plain_named(mp, n));
        } else if i < mp.len() + al.len() {
            assert(m[i] == al[i - mp.len()]);
            assert(sel_is_aliased(al[i - mp.len()]));
            assert(false);
        } else {
            assert(m[i] == fr[i - mp.len() - al.len()]);
            assert(!sel_is_field(fr[i - mp.len() - al.len()]));
            assert(false);
        }
    }
}

} // verus!
