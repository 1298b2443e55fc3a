use vstd::prelude::*;

verus! {

// ---------------------------------------------------------------------------
// Mathematical models of GraphQL selections.
//
// A selection is a field (possibly aliased, possibly with a sub-selection),
// a named fragment spread, or an inline fragment.  The `Sel` datatype is the
// spec-level mirror of the executable `Selection`, with strings replaced by
// character sequences and vectors by sequences.
// ---------------------------------------------------------------------------

#[verifier::ext_equal]
pub struct FieldModel {
    pub alias: Option<Seq<char>>,
    pub name: Seq<char>,
    pub sub: Seq<Sel>,
}

#[verifier::ext_equal]
pub enum Sel {
    Field(FieldModel),
    Spread { name: Seq<char> },
    Inline { cond: Option<Seq<char>>, sub: Seq<Sel> },
}

// ---------------------------------------------------------------------------
// Executable selection nodes.
// ---------------------------------------------------------------------------

#[verifier::ext_equal]
pub enum Selection {
    Field(Field),
    FragmentSpread(String),
    InlineFragment(InlineFragment),
}

#[verifier::ext_equal]
pub struct Field {
    pub alias: Option<String>,
    pub name: String,
    pub selection_set: Vec<Selection>,
}

#[verifier::ext_equal]
pub struct InlineFragment {
    pub type_condition: Option<String>,
    pub selection_set: Vec<Selection>,
}

pub open spec fn opt_str_model(o: Option<String>) -> Option<Seq<char>> {
    match o {
        Option::Some(s) => Option::Some(s@),
        Option::None => Option::None,
    }
}

impl Field {
    pub open spec fn model(self) -> FieldModel
        decreases self,
    {
        FieldModel { alias: opt_str_model(self.alias), name: self.name@, sub: sels_model(self.selection_set@) }
    }
}

impl Selection {
    pub open spec fn model(self) -> Sel
        decreases self,
    {
        match self {
            Selection::Field(f) => Sel::Field(
                FieldModel { alias: opt_str_model(f.alias), name: f.name@, sub: sels_model(f.selection_set@) },
            ),
            Selection::FragmentSpread(n) => Sel::Spread { name: n@ },
            Selection::InlineFragment(i) => Sel::Inline {
                cond: opt_str_model(i.type_condition),
                sub: sels_model(i.selection_set@),
            },
        }
    }
}

pub open spec fn sels_model(s: Seq<Selection>) -> Seq<Sel>
    decreases s,
{
    if s.len() == 0 {
        Seq::empty()
    } else {
        seq![s[0].model()] + sels_model(s.drop_first())
    }
}

/// The model of a sequence of selections is the element-wise model.
pub proof fn lemma_sels_model(s: Seq<Selection>)
    ensures
        sels_model(s).len() == s.len(),
        forall|i: int| 0 <= i < s.len() ==> sels_model(s)[i] == #[trigger] s[i].model(),
    decreases s,
{
    if s.len() > 0 {
        lemma_sels_model(s.drop_first());
        assert forall|i: int| 0 <= i < s.len() implies sels_model(s)[i] == #[trigger] s[i].model() by {
            if i > 0 {
                assert(s.drop_first()[i - 1] == s[i]);
                assert(sels_model(s)[i] == sels_model(s.drop_first())[i - 1]);
            }
        }
    }
}

// ---------------------------------------------------------------------------
// Height of a selection tree, the termination measure for traversals.
// ---------------------------------------------------------------------------

pub open spec fn sel_height(s: Selection) -> nat
    decreases s,
{
    match s {
        Selection::Field(f) => 1 + sels_height(f.selection_set@),
        Selection::FragmentSpread(_) => 1,
        Selection::InlineFragment(i) => 1 + sels_height(i.selection_set@),
    }
}

pub open spec fn sels_height(s: Seq<Selection>) -> nat
    decreases s,
{
    if s.len() == 0 {
        0
    } else {
        sel_height(s[0]) + sels_height(s.drop_first())
    }
}

pub proof fn lemma_sels_height_suffix(s: Seq<Selection>, from: int)
    requires
        0 <= from < s.len(),
    ensures
        sels_height(s.skip(from)) == sel_height(s[from]) + sels_height(s.skip(from + 1)),
{
    let suf = s.skip(from);
    assert(suf.len() > 0);
    assert(suf[0] == s[from]);
    assert(suf.drop_first() =~= s.skip(from + 1));
}

// ---------------------------------------------------------------------------
// Deep copies.  The selection structures own vectors, whose fresh copies
// Verus does not equate with the originals; the contracts therefore speak of
// the models, which a copy preserves exactly.
// ---------------------------------------------------------------------------

pub fn duplicate_opt_string(o: &Option<String>) -> (r: Option<String>)
    ensures
        opt_str_model(r) == opt_str_model(*o),
{
    match o {
        Option::Some(s) => Option::Some(s.clone()),
        Option::None => Option::None,
    }
}

impl Selection {
    pub fn duplicate(&self) -> (r: Selection)
        ensures
            r.model() == self.model(),
        decreases sel_height(*self), 0int,
    {
        match self {
            Selection::Field(f) => {
                proof {
                    assert(f.selection_set@.skip(0) =~= f.selection_set@);
                }
                let sub = duplicate_selections_rec(&f.selection_set, 0);
                Selection::Field(Field { alias: duplicate_opt_string(&f.alias), name: f.name.clone(), selection_set: sub })
            },
            Selection::FragmentSpread(n) => Selection::FragmentSpread(n.clone()),
            Selection::InlineFragment(i) => {
                proof {
                    assert(i.selection_set@.skip(0) =~= i.selection_set@);
                }
                let sub = duplicate_selections_rec(&i.selection_set, 0);
                Selection::InlineFragment(InlineFragment { type_condition: duplicate_opt_string(&i.type_condition), selection_set: sub })
            },
        }
    }
}

/// Copies `v[from..]`; the model of the copy equals the model of that suffix.
pub fn duplicate_selections_rec(v: &Vec<Selection>, from: usize) -> (r: Vec<Selection>)
    requires
        from <= v@.len(),
    ensures
        sels_model(r@) == sels_model(v@.skip(from as int)),
    decreases sels_height(v@.skip(from as int)), 1int,
{
    if from == v.len() {
        let r: Vec<Selection> = Vec::new();
        assert(sels_model(r@) =~= sels_model(v@.skip(from as int)));
        r
    } else {
        proof {
            lemma_sels_height_suffix(v@, from as int);
        }
        let head = v[from].duplicate();
        let mut tail = duplicate_selections_rec(v, from + 1);
        let ghost tail_seq = tail@;
        let mut r: Vec<Selection> = Vec::new();
        r.push(head);
        append_vec(&mut r, &mut tail);
        proof {
            let suf = v@.skip(from as int);
            assert(suf[0] == v@[from as int]);
            assert(suf.drop_first() =~= v@.skip(from as int + 1));
            assert(r@ == seq![head] + tail_seq);
            assert(r@.drop_first() =~= tail_seq);
            assert(r@[0] == head);
            assert(sels_model(r@) =~= sels_model(suf));
        }
        r
    }
}

pub fn duplicate_selections(v: &Vec<Selection>) -> (r: Vec<Selection>)
    ensures
        sels_model(r@) == sels_model(v@),
{
    let r = duplicate_selections_rec(v, 0);
    proof {
        assert(v@.skip(0) =~= v@);
    }
    r
}

impl Field {
    pub fn duplicate(&self) -> (r: Field)
        ensures
            r.model() == self.model(),
    {
        Field {
            alias: duplicate_opt_string(&self.alias),
            name: self.name.clone(),
            selection_set: duplicate_selections(&self.selection_set),
        }
    }
}

// ---------------------------------------------------------------------------
// Field sets: the planner's internal selections, a parent-type scope paired
// with a field definition name and the concrete field node.
// ---------------------------------------------------------------------------

#[verifier::ext_equal]
pub struct FieldSel {
    pub parent_type: String,
    pub def_name: String,
    pub node: Field,
}

#[verifier::ext_equal]
pub struct FieldSelModel {
    pub parent_type: Seq<char>,
    pub def_name: Seq<char>,
    pub node: FieldModel,
}

impl FieldSel {
    pub open spec fn model(self) -> FieldSelModel {
        FieldSelModel { parent_type: self.parent_type@, def_name: self.def_name@, node: self.node.model() }
    }

    pub fn duplicate(&self) -> (r: FieldSel)
        ensures
            r.model() == self.model(),
    {
        let r = FieldSel {
            parent_type: self.parent_type.clone(),
            def_name: self.def_name.clone(),
            node: self.node.duplicate(),
        };
        proof {
            assert(r.model() =~~= self.model());
        }
        r
    }
}

pub open spec fn field_sels_model(s: Seq<FieldSel>) -> Seq<FieldSelModel> {
    Seq::new(s.len(), |i: int| s[i].model())
}

pub fn duplicate_field_sels(v: &Vec<FieldSel>) -> (r: Vec<FieldSel>)
    ensures
        field_sels_model(r@) == field_sels_model(v@),
{
    let mut r: Vec<FieldSel> = Vec::new();
    let mut i: usize = 0;
    while i < v.len()
        invariant
            i <= v@.len(),
            r@.len() == i,
            field_sels_model(r@) =~= field_sels_model(v@.take(i as int)),
        decreases v@.len() - i,
    {
        let ghost prev = r@;
        r.push(v[i].duplicate());
        proof {
            assert forall|j: int| 0 <= j < i as int + 1 implies field_sels_model(r@)[j] == field_sels_model(
                v@.take(i as int + 1),
            )[j] by {
                assert(v@.take(i as int + 1)[j] == v@[j]);
                if j < i as int {
                    assert(r@[j] == prev[j]);
                    assert(field_sels_model(prev)[j] == field_sels_model(v@.take(i as int))[j]);
                    assert(v@.take(i as int)[j] == v@[j]);
                } else {
                    assert(r@[j] == r@[i as int]);
                }
            }
            assert(field_sels_model(r@) =~= field_sels_model(v@.take(i as int + 1)));
        }
        i = i + 1;
    }
    proof {
        assert(v@.take(v@.len() as int) =~= v@);
        assert(field_sels_model(r@) =~= field_sels_model(v@));
    }
    r
}

/// Moves every element of `src` to the end of `dst`, in order.
pub fn append_vec<T>(dst: &mut Vec<T>, src: &mut Vec<T>)
    ensures
        final(dst)@ == old(dst)@ + old(src)@,
        final(src)@.len() == 0,
{
    let ghost orig_dst = dst@;
    let ghost orig_src = src@;
    let ghost mut i: int = 0;
    while src.len() > 0
        invariant
            i == orig_src.len() - src@.len(),
            0 <= i <= orig_src.len(),
            dst@ == orig_dst + orig_src.take(i),
            src@ == orig_src.skip(i),
        decreases src@.len(),
    {
        let x = src.remove(0);
        dst.push(x);
        proof {
            i = i + 1;
            let j = i;
            assert(x == orig_src[j - 1]);
            assert(orig_src.take(j) =~= orig_src.take(j - 1).push(orig_src[j - 1]));
            assert(src@ =~= orig_src.skip(j));
            assert(dst@ =~= orig_dst + orig_src.take(j));
        }
    }
    proof {
        assert(orig_src.take(orig_src.len() as int) =~= orig_src);
        assert(dst@ =~= orig_dst + orig_src);
    }
}

// ---------------------------------------------------------------------------
// The `__typename` meta field.
// ---------------------------------------------------------------------------

pub open spec fn typename_name() -> Seq<char> {
    "__typename"@
}

pub fn typename_string() -> (r: String)
    ensures
        r@ == typename_name(),
{
    String::from_str("__typename")
}

pub fn is_typename(s: &String) -> (r: bool)
    ensures
        r == (s@ == typename_name()),
{
    let t = typename_string();
    *s == t
}

/// The field-set entry selecting only `__typename` on the given parent type.
pub open spec fn typename_field_sel(parent: Seq<char>) -> FieldSelModel {
    FieldSelModel {
        parent_type: parent,
        def_name: typename_name(),
        node: FieldModel { alias: Option::None, name: typename_name(), sub: Seq::empty() },
    }
}

pub fn make_typename_field_sel(parent: &String) -> (r: FieldSel)
    ensures
        r.model() == typename_field_sel(parent@),
{
    let r = FieldSel {
        parent_type: parent.clone(),
        def_name: typename_string(),
        node: Field { alias: Option::None, name: typename_string(), selection_set: Vec::new() },
    };
    proof {
        assert(r.model() =~~= typename_field_sel(parent@));
    }
    r
}

/// Copies a vector of strings; string copies are equal to their originals,
/// so the result is the same sequence of strings.
pub fn duplicate_strings(v: &Vec<String>) -> (r: Vec<String>)
    ensures
        r@ == v@,
{
    let mut r: Vec<String> = Vec::new();
    let mut i: usize = 0;
    while i < v.len()
        invariant
            i <= v@.len(),
            r@ =~= v@.take(i as int),
        decreases v@.len() - i,
    {
        r.push(v[i].clone());
        i = i + 1;
    }
    proof {
        assert(r@ =~= v@);
    }
    r
}

} // verus!
