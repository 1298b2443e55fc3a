use vstd::prelude::*;
use crate::ast::{Selection, Sel, sels_model, duplicate_selections};
use crate::schema::{SchemaDefinition, SchemaDocument, TypeDefinition};

verus! {

// ---------------------------------------------------------------------------
// Query documents: operations, bare selection sets and fragments.
// ---------------------------------------------------------------------------

#[derive(Clone, Copy, Debug, PartialEq, Eq, Structural)]
pub enum Operation {
    Query,
    Mutation,
    Subscription,
}

#[verifier::ext_equal]
pub struct VariableDef {
    pub name: String,
    pub var_type: String,
}

#[verifier::ext_equal]
pub struct VarDefModel {
    pub name: Seq<char>,
    pub var_type: Seq<char>,
}

impl VariableDef {
    pub open spec fn model(self) -> VarDefModel {
        VarDefModel { name: self.name@, var_type: self.var_type@ }
    }

    pub fn duplicate(&self) -> (r: VariableDef)
        ensures
            r.model() == self.model(),
    {
        VariableDef { name: self.name.clone(), var_type: self.var_type.clone() }
    }
}

pub open spec fn var_defs_model(s: Seq<VariableDef>) -> Seq<VarDefModel> {
    Seq::new(s.len(), |i: int| s[i].model())
}

#[verifier::ext_equal]
pub struct OperationDef {
    pub kind: Operation,
    pub variable_definitions: Vec<VariableDef>,
    pub selection_set: Vec<Selection>,
}

#[verifier::ext_equal]
pub enum Definition {
    Operation(OperationDef),
    SelectionSet(Vec<Selection>),
    Fragment(crate::groups::NamedFragment),
}

#[verifier::ext_equal]
pub struct Document {
    pub definitions: Vec<Definition>,
}

/// An operation to plan: its kind and its root selection set.  A bare
/// selection-set definition counts as a query.
#[verifier::ext_equal]
pub struct Op {
    pub selection_set: Vec<Selection>,
    pub kind: Operation,
}

#[verifier::ext_equal]
pub struct OpModel {
    pub kind: Operation,
    pub sub: Seq<Sel>,
}

impl Op {
    pub open spec fn model(self) -> OpModel {
        OpModel { kind: self.kind, sub: sels_model(self.selection_set@) }
    }
}

pub open spec fn ops_model(s: Seq<Op>) -> Seq<OpModel> {
    Seq::new(s.len(), |i: int| s[i].model())
}

/// The operations a document holds, in order: operation definitions keep
/// their kind, bare selection sets become queries, fragments are skipped.
pub open spec fn ops_of(defs: Seq<Definition>) -> Seq<OpModel>
    decreases defs,
{
    if defs.len() == 0 {
        Seq::empty()
    } else {
        let rest = ops_of(defs.drop_first());
        match defs[0] {
            Definition::Operation(o) => seq![
                OpModel { kind: o.kind, sub: sels_model(o.selection_set@) },
            ] + rest,
            Definition::SelectionSet(ss) => seq![OpModel { kind: Operation::Query, sub: sels_model(ss@) }]
                + rest,
            Definition::Fragment(_) => rest,
        }
    }
}

pub fn get_operations(query: &Document) -> (r: Vec<Op>)
    ensures
        ops_model(r@) == ops_of(query.definitions@),
{
    let r = get_operations_rec(&query.definitions, 0);
    proof {
        assert(query.definitions@.skip(0) =~= query.definitions@);
    }
    r
}

fn get_operations_rec(defs: &Vec<Definition>, from: usize) -> (r: Vec<Op>)
    requires
        from <= defs@.len(),
    ensures
        ops_model(r@) == ops_of(defs@.skip(from as int)),
    decreases defs@.len() - from,
{
    if from == defs.len() {
        let r: Vec<Op> = Vec::new();
        proof {
            assert(defs@.skip(from as int) =~= Seq::<Definition>::empty());
            assert(ops_model(r@) =~= ops_of(defs@.skip(from as int)));
        }
        r
    } else {
        let mut rest = get_operations_rec(defs, from + 1);
        proof {
            let suf = defs@.skip(from as int);
            assert(suf[0] == defs@[from as int]);
            assert(suf.drop_first() =~= defs@.skip(from as int + 1));
        }
        let head: Option<Op> = match &defs[from] {
            Definition::Operation(o) => Option::Some(
                Op { kind: o.kind, selection_set: duplicate_selections(&o.selection_set) },
            ),
            Definition::SelectionSet(ss) => Option::Some(
                Op { kind: Operation::Query, selection_set: duplicate_selections(ss) },
            ),
            Definition::Fragment(_) => Option::None,
        };
        match head {
            Option::Some(op) => {
                let ghost op_m = op.model();
                let ghost rest_seq = rest@;
                let mut r: Vec<Op> = Vec::new();
                r.push(op);
                crate::ast::append_vec(&mut r, &mut rest);
                proof {
                    assert(r@.drop_first() =~= rest_seq);
                    assert(r@[0].model() == op_m);
                    assert(ops_model(r@) =~= seq![op_m] + ops_model(rest_seq));
                    assert(ops_model(r@) =~= ops_of(defs@.skip(from as int)));
                }
                r
            },
            Option::None => {
                proof {
                    assert(ops_model(rest@) =~= ops_of(defs@.skip(from as int)));
                }
                rest
            },
        }
    }
}

// ---------------------------------------------------------------------------
// Lookup tables built from the documents.
// ---------------------------------------------------------------------------

/// The type definitions a schema document holds, in order.
pub open spec fn types_of(defs: Seq<SchemaDefinition>) -> Seq<TypeDefinition>
    decreases defs,
{
    if defs.len() == 0 {
        Seq::empty()
    } else {
        let rest = types_of(defs.drop_first());
        match defs[0] {
            SchemaDefinition::Type(t) => seq![t] + rest,
            SchemaDefinition::Other => rest,
        }
    }
}

pub open spec fn type_models(s: Seq<TypeDefinition>) -> Seq<crate::schema::TypeDefModel> {
    Seq::new(s.len(), |i: int| s[i].model())
}

/// The name-to-definition table: the schema's type definitions in order,
/// looked up by name.
pub fn names_to_types(schema: &SchemaDocument) -> (r: Vec<TypeDefinition>)
    ensures
        type_models(r@) == type_models(types_of(schema.definitions@)),
{
    let r = names_to_types_rec(&schema.definitions, 0);
    proof {
        assert(schema.definitions@.skip(0) =~= schema.definitions@);
    }
    r
}

fn names_to_types_rec(defs: &Vec<SchemaDefinition>, from: usize) -> (r: Vec<TypeDefinition>)
    requires
        from <= defs@.len(),
    ensures
        type_models(r@) == type_models(types_of(defs@.skip(from as int))),
    decreases defs@.len() - from,
{
    if from == defs.len() {
        let r: Vec<TypeDefinition> = Vec::new();
        proof {
            assert(defs@.skip(from as int) =~= Seq::<SchemaDefinition>::empty());
            assert(type_models(r@) =~= type_models(types_of(defs@.skip(from as int))));
        }
        r
    } else {
        let mut rest = names_to_types_rec(defs, from + 1);
        proof {
            let suf = defs@.skip(from as int);
            assert(suf[0] == defs@[from as int]);
            assert(suf.drop_first() =~= defs@.skip(from as int + 1));
        }
        match &defs[from] {
            SchemaDefinition::Type(t) => {
                let ghost t_m = t.model();
                let ghost rest_seq = rest@;
                let mut r: Vec<TypeDefinition> = Vec::new();
                r.push(t.duplicate());
                crate::ast::append_vec(&mut r, &mut rest);
                proof {
                    let suf = defs@.skip(from as int);
                    let tsuf = types_of(suf);
                    let tail = types_of(defs@.skip(from as int + 1));
                    assert(r@.drop_first() =~= rest_seq);
                    assert(r@[0].model() == t_m);
                    assert(tsuf == seq![*t] + tail);
                    assert forall|j: int| 0 <= j < r@.len() implies type_models(r@)[j] == type_models(
                        tsuf,
                    )[j] by {
                        if j == 0 {
                            assert(tsuf[0] == *t);
                        } else {
                            assert(type_models(rest_seq).len() == rest_seq.len());
                            assert(type_models(tail).len() == tail.len());
                            assert(rest_seq.len() == tail.len());
                            assert(0 <= j - 1 < tail.len());
                            assert(r@[j] == rest_seq[j - 1]);
                            assert(tsuf[j] == tail[j - 1]);
                            assert(type_models(rest_seq)[j - 1] == rest_seq[j - 1].model());
                            assert(type_models(tail)[j - 1] == tail[j - 1].model());
                        }
                    }
                    assert(type_models(rest_seq).len() == rest_seq.len());
                    assert(type_models(tail).len() == tail.len());
                    assert(rest_seq.len() == tail.len());
                    assert(type_models(r@).len() == type_models(tsuf).len());
                    assert(type_models(r@) =~= type_models(tsuf));
                }
                r
            },
            SchemaDefinition::Other => {
                proof {
                    assert(type_models(rest@) =~= type_models(types_of(defs@.skip(from as int))));
                }
                rest
            },
        }
    }
}

/// First type definition with the given name.
pub open spec fn find_type(ts: Seq<TypeDefinition>, n: Seq<char>) -> Option<TypeDefinition>
    decreases ts.len(),
{
    if ts.len() == 0 {
        Option::None
    } else if ts[0].spec_name() == n {
        Option::Some(ts[0])
    } else {
        find_type(ts.drop_first(), n)
    }
}

pub fn type_by_name<'a>(types: &'a Vec<TypeDefinition>, name: &String) -> (r: Option<&'a TypeDefinition>)
    ensures
        match find_type(types@, name@) {
            Option::Some(t) => r matches Option::Some(p) && *p == t,
            Option::None => r is None,
        },
{
    let ghost ts = types@;
    proof {
        assert(ts.skip(0) =~= ts);
    }
    let mut i: usize = 0;
    while i < types.len()
        invariant
            i <= types@.len(),
            ts == types@,
            find_type(ts, name@) == find_type(ts.skip(i as int), name@),
        decreases types@.len() - i,
    {
        proof {
            assert(ts.skip(i as int)[0] == ts[i as int]);
        }
        if *types[i].as_name() == *name {
            proof {
                assert(find_type(ts.skip(i as int), name@) == Option::Some(ts[i as int]));
            }
            return Option::Some(&types[i]);
        }
        proof {
            assert(ts.skip(i as int).drop_first() =~= ts.skip(i as int + 1));
        }
        i = i + 1;
    }
    proof {
        assert(ts.skip(ts.len() as int).len() == 0);
    }
    Option::None
}

/// The variable definitions of the document's first operation definition.
pub open spec fn first_op_vars(defs: Seq<Definition>) -> Seq<VarDefModel>
    decreases defs,
{
    if defs.len() == 0 {
        Seq::empty()
    } else {
        match defs[0] {
            Definition::Operation(o) => var_defs_model(o.variable_definitions@),
            _ => first_op_vars(defs.drop_first()),
        }
    }
}

/// The name-to-variable-definition table of the operation to plan: the
/// first operation definition's variable definitions, in order.
pub fn variable_name_to_def(query: &Document) -> (r: Vec<VariableDef>)
    ensures
        var_defs_model(r@) == first_op_vars(query.definitions@),
{
    let defs = &query.definitions;
    let ghost ds = defs@;
    proof {
        assert(ds.skip(0) =~= ds);
    }
    let mut i: usize = 0;
    while i < defs.len()
        invariant
            i <= defs@.len(),
            ds == defs@,
            ds == query.definitions@,
            first_op_vars(ds) == first_op_vars(ds.skip(i as int)),
        decreases defs@.len() - i,
    {
        proof {
            assert(ds.skip(i as int)[0] == ds[i as int]);
        }
        match &defs[i] {
            Definition::Operation(o) => {
                proof {
                    assert(first_op_vars(ds.skip(i as int)) == var_defs_model(o.variable_definitions@));
                }
                let r = duplicate_var_defs(&o.variable_definitions);
                return r;
            },
            _ => {},
        }
        proof {
            assert(ds.skip(i as int).drop_first() =~= ds.skip(i as int + 1));
        }
        i = i + 1;
    }
    proof {
        assert(ds.skip(ds.len() as int).len() == 0);
    }
    let r: Vec<VariableDef> = Vec::new();
    proof {
        assert(var_defs_model(r@) =~= Seq::<VarDefModel>::empty());
    }
    r
}

fn duplicate_var_defs(v: &Vec<VariableDef>) -> (r: Vec<VariableDef>)
    ensures
        var_defs_model(r@) == var_defs_model(v@),
{
    let mut r: Vec<VariableDef> = Vec::new();
    let mut i: usize = 0;
    while i < v.len()
        invariant
            i <= v@.len(),
            r@.len() == i,
            var_defs_model(r@) =~= var_defs_model(v@.take(i as int)),
        decreases v@.len() - i,
    {
        let ghost prev = r@;
        r.push(v[i].duplicate());
        proof {
            assert forall|j: int| 0 <= j < i as int + 1 implies var_defs_model(r@)[j] == var_defs_model(
                v@.take(i as int + 1),
            )[j] by {
                assert(v@.take(i as int + 1)[j] == v@[j]);
                if j < i as int {
                    assert(r@[j] == prev[j]);
                    assert(var_defs_model(prev)[j] == var_defs_model(v@.take(i as int))[j]);
                    assert(v@.take(i as int)[j] == v@[j]);
                } else {
                    assert(r@[j] == r@[i as int]);
                }
            }
            assert(var_defs_model(r@) =~= var_defs_model(v@.take(i as int + 1)));
        }
        i = i + 1;
    }
    proof {
        assert(v@.take(v@.len() as int) =~= v@);
        assert(var_defs_model(r@) =~= var_defs_model(v@));
    }
    r
}

// ---------------------------------------------------------------------------
// Introspection filtering.
// ---------------------------------------------------------------------------

/// The built-in introspection type names.
pub open spec fn is_introspection_name(n: Seq<char>) -> bool {
    n == "__Schema"@ || n == "__Directive"@ || n == "__DirectiveLocation"@ || n == "__Type"@ || n
        == "__Field"@ || n == "__InputValue"@ || n == "__EnumValue"@ || n == "__TypeKind"@
}

pub fn is_introspection_type(name: &String) -> (r: bool)
    ensures
        r == is_introspection_name(name@),
{
    *name == String::from_str("__Schema") || *name == String::from_str("__Directive") || *name
        == String::from_str("__DirectiveLocation") || *name == String::from_str("__Type") || *name
        == String::from_str("__Field") || *name == String::from_str("__InputValue") || *name
        == String::from_str("__EnumValue") || *name == String::from_str("__TypeKind")
}

/// Whether a selection is not a top-level introspection field (`__schema`
/// or `__type`); non-field selections pass.
pub open spec fn spec_not_introspection_field(x: Sel) -> bool {
    match x {
        Sel::Field(f) => f.name != "__schema"@ && f.name != "__type"@,
        _ => true,
    }
}

pub fn is_not_introspection_field(selection: &Selection) -> (r: bool)
    ensures
        r == spec_not_introspection_field(selection.model()),
{
    match selection {
        Selection::Field(f) => !(f.name == String::from_str("__schema")) && !(f.name == String::from_str(
            "__type",
        )),
        _ => true,
    }
}

// ---------------------------------------------------------------------------
// Small utilities.
// ---------------------------------------------------------------------------

/// Splitting a non-empty vector into its first element and the rest.
pub trait Head<T>: Sized {
    fn head(self) -> (r: (T, Vec<T>))
        requires
            self.head_enabled(),
    ;

    spec fn head_enabled(&self) -> bool;
}

impl<T> Head<T> for Vec<T> {
    open spec fn head_enabled(&self) -> bool {
        self@.len() > 0
    }

    fn head(self) -> (r: (T, Vec<T>))
        ensures
            r.0 == self@[0],
            r.1@ == self@.drop_first(),
    {
        let ghost s0 = self@;
        let mut v = self;
        let h = v.remove(0);
        proof {
            assert(v@ =~= s0.drop_first());
        }
        (h, v)
    }
}

/// Whether a plan level's groups run one after another or side by side.
#[derive(Clone, Copy, Debug, PartialEq, Eq, Structural)]
pub enum NodeCollectionKind {
    Sequence,
    Parallel,
}


// ---------------------------------------------------------------------------
// Possible types: union and interface names mapped to the concrete object
// types they may resolve to, computed by a breadth-first walk over the
// interface-implementation graph.  A malformed graph (a membership that is
// no interface, or a cycle, which exhausts the walk's budget) is a
// composition error.
// ---------------------------------------------------------------------------

#[verifier::ext_equal]
pub struct PossibleEntry {
    pub name: String,
    pub objects: Vec<String>,
}

#[verifier::ext_equal]
pub struct PossModel {
    pub name: Seq<char>,
    pub objects: Seq<Seq<char>>,
}

impl PossibleEntry {
    pub open spec fn model(self) -> PossModel {
        PossModel { name: self.name@, objects: crate::schema::strs_model(self.objects@) }
    }
}

pub open spec fn poss_model(s: Seq<PossibleEntry>) -> Seq<PossModel> {
    Seq::new(s.len(), |i: int| s[i].model())
}

/// First entry with the given name; `acc.len()` when absent.
pub open spec fn poss_index(acc: Seq<PossModel>, name: Seq<char>) -> int
    decreases acc.len(),
{
    if acc.len() == 0 {
        0
    } else if acc[0].name == name {
        0
    } else {
        1 + poss_index(acc.drop_first(), name)
    }
}

pub proof fn lemma_poss_index_found(acc: Seq<PossModel>, name: Seq<char>, i: int)
    requires
        0 <= i < acc.len(),
        forall|j: int| 0 <= j < i ==> (#[trigger] acc[j]).name != name,
        acc[i].name == name,
    ensures
        poss_index(acc, name) == i,
    decreases i,
{
    if i > 0 {
        lemma_poss_index_found(acc.drop_first(), name, i - 1);
        assert(acc.drop_first()[i - 1] == acc[i]);
    }
}

pub proof fn lemma_poss_index_absent(acc: Seq<PossModel>, name: Seq<char>)
    requires
        forall|j: int| 0 <= j < acc.len() ==> (#[trigger] acc[j]).name != name,
    ensures
        poss_index(acc, name) == acc.len(),
    decreases acc.len(),
{
    if acc.len() > 0 {
        lemma_poss_index_absent(acc.drop_first(), name);
    }
}

pub proof fn lemma_poss_index_in_range(acc: Seq<PossModel>, name: Seq<char>)
    ensures
        0 <= poss_index(acc, name) <= acc.len(),
        poss_index(acc, name) < acc.len() ==> acc[poss_index(acc, name)].name == name,
    decreases acc.len(),
{
    if acc.len() > 0 && acc[0].name != name {
        lemma_poss_index_in_range(acc.drop_first(), name);
    }
}

/// Appends `obj` under `name`, creating the entry at the end on first use.
pub open spec fn poss_append(acc: Seq<PossModel>, name: Seq<char>, obj: Seq<char>) -> Seq<PossModel> {
    let i = poss_index(acc, name);
    if i < acc.len() {
        acc.update(i, PossModel { name: name, objects: acc[i].objects.push(obj) })
    } else {
        acc.push(PossModel { name: name, objects: seq![obj] })
    }
}

/// Replaces the entry for `name` with exactly `objects`, creating it at the
/// end when absent.
pub open spec fn poss_upsert(acc: Seq<PossModel>, name: Seq<char>, objects: Seq<Seq<char>>) -> Seq<
    PossModel,
> {
    let i = poss_index(acc, name);
    if i < acc.len() {
        acc.update(i, PossModel { name: name, objects: objects })
    } else {
        acc.push(PossModel { name: name, objects: objects })
    }
}

fn find_poss_entry(acc: &Vec<PossibleEntry>, name: &String) -> (r: usize)
    ensures
        r as int == poss_index(poss_model(acc@), name@),
        r <= acc@.len(),
{
    let ghost m = poss_model(acc@);
    let mut i: usize = 0;
    while i < acc.len()
        invariant
            i <= acc@.len(),
            m == poss_model(acc@),
            m.len() == acc@.len(),
            forall|j: int| 0 <= j < acc@.len() ==> m[j] == (#[trigger] acc@[j]).model(),
            forall|j: int| 0 <= j < i ==> (#[trigger] m[j]).name != name@,
        decreases acc@.len() - i,
    {
        if acc[i].name == *name {
            proof {
                lemma_poss_index_found(m, name@, i as int);
            }
            return i;
        }
        i = i + 1;
    }
    proof {
        lemma_poss_index_absent(m, name@);
    }
    i
}

fn poss_append_exec(acc: &mut Vec<PossibleEntry>, name: &String, obj: &String)
    ensures
        poss_model(final(acc)@) == poss_append(poss_model(old(acc)@), name@, obj@),
{
    let ghost m0 = poss_model(acc@);
    let idx = find_poss_entry(acc, name);
    proof {
        lemma_poss_index_in_range(m0, name@);
    }
    let ghost av0 = acc@;
    if idx < acc.len() {
        let mut entry = acc.remove(idx);
        entry.objects.push(obj.clone());
        let ghost entry_final = entry;
        acc.insert(idx, entry);
        proof {
            let av = acc@;
            assert(av =~= av0.update(idx as int, entry_final));
            assert(crate::schema::strs_model(entry_final.objects@) =~= m0[idx as int].objects.push(obj@));
            assert(entry_final.model() == (PossModel {
                name: name@,
                objects: m0[idx as int].objects.push(obj@),
            }));
            assert forall|j: int| 0 <= j < av.len() implies poss_model(av)[j] == poss_append(
                m0,
                name@,
                obj@,
            )[j] by {
                if j != idx as int {
                    assert(av[j] == av0[j]);
                }
            }
            assert(poss_model(av) =~= poss_append(m0, name@, obj@));
        }
    } else {
        let mut objects: Vec<String> = Vec::new();
        objects.push(obj.clone());
        let entry = PossibleEntry { name: name.clone(), objects };
        let ghost entry_m = entry.model();
        acc.push(entry);
        proof {
            assert(entry_m == (PossModel { name: name@, objects: seq![obj@] })) by {
                assert(entry_m.objects =~= seq![obj@]);
            }
            assert forall|j: int| 0 <= j < acc@.len() implies poss_model(acc@)[j] == poss_append(
                m0,
                name@,
                obj@,
            )[j] by {
                if j < av0.len() {
                    assert(acc@[j] == av0[j]);
                }
            }
            assert(poss_model(acc@) =~= poss_append(m0, name@, obj@));
        }
    }
}

fn poss_upsert_exec(acc: &mut Vec<PossibleEntry>, name: &String, objects: Vec<String>)
    ensures
        poss_model(final(acc)@) == poss_upsert(
            poss_model(old(acc)@),
            name@,
            crate::schema::strs_model(objects@),
        ),
{
    let ghost m0 = poss_model(acc@);
    let ghost objs_m = crate::schema::strs_model(objects@);
    let idx = find_poss_entry(acc, name);
    proof {
        lemma_poss_index_in_range(m0, name@);
    }
    let ghost av0 = acc@;
    let entry = PossibleEntry { name: name.clone(), objects };
    let ghost entry_m = entry.model();
    proof {
        assert(entry_m == (PossModel { name: name@, objects: objs_m }));
    }
    if idx < acc.len() {
        let _old = acc.remove(idx);
        acc.insert(idx, entry);
        proof {
            let av = acc@;
            assert(av =~= av0.update(idx as int, entry));
            assert forall|j: int| 0 <= j < av.len() implies poss_model(av)[j] == poss_upsert(
                m0,
                name@,
                objs_m,
            )[j] by {
                if j != idx as int {
                    assert(av[j] == av0[j]);
                }
            }
            assert(poss_model(av) =~= poss_upsert(m0, name@, objs_m));
        }
    } else {
        acc.push(entry);
        proof {
            assert forall|j: int| 0 <= j < acc@.len() implies poss_model(acc@)[j] == poss_upsert(
                m0,
                name@,
                objs_m,
            )[j] by {
                if j < av0.len() {
                    assert(acc@[j] == av0[j]);
                }
            }
            assert(poss_model(acc@) =~= poss_upsert(m0, name@, objs_m));
        }
    }
}

/// One object's walk: visit each reachable interface once, in first-reach
/// order, adding the object under it; fail on a missing or non-interface
/// membership, or when the budget runs out.
pub open spec fn bfs_spec(
    ts: Seq<TypeDefinition>,
    obj: Seq<char>,
    queue: Seq<Seq<char>>,
    visited: Seq<Seq<char>>,
    acc: Seq<PossModel>,
    fuel: nat,
) -> Option<Seq<PossModel>>
    decreases fuel,
{
    if queue.len() == 0 {
        Option::Some(acc)
    } else if fuel == 0 {
        Option::None
    } else {
        let iface = queue[0];
        if visited.contains(iface) {
            bfs_spec(ts, obj, queue.drop_first(), visited, acc, (fuel - 1) as nat)
        } else {
            let acc1 = poss_append(acc, iface, obj);
            match find_type(ts, iface) {
                Option::Some(td) => match td {
                    TypeDefinition::Interface(it) => bfs_spec(
                        ts,
                        obj,
                        queue.drop_first() + crate::schema::strs_model(it.implements_interfaces@),
                        visited.push(iface),
                        acc1,
                        (fuel - 1) as nat,
                    ),
                    _ => Option::None,
                },
                Option::None => Option::None,
            }
        }
    }
}

/// The walk's budget: enough for every interface and every edge of a
/// well-formed (acyclic) implementation graph.
pub open spec fn bfs_fuel(n: nat) -> nat {
    n * n + n + 1
}

fn bfs_exec(
    types: &Vec<TypeDefinition>,
    obj: &String,
    queue_init: Vec<String>,
    acc_init: Vec<PossibleEntry>,
) -> (r: Result<Vec<PossibleEntry>, crate::metadata::PlanError>)
    ensures
        match bfs_spec(
            types@,
            obj@,
            crate::schema::strs_model(queue_init@),
            Seq::empty(),
            poss_model(acc_init@),
            bfs_fuel(types@.len() as nat),
        ) {
            Option::Some(a) => r matches Result::Ok(v) && poss_model(v@) == a,
            Option::None => r matches Result::Err(e) && e == crate::metadata::PlanError::Composition,
        },
{
    let ghost ts = types@;
    let ghost goal = bfs_spec(
        ts,
        obj@,
        crate::schema::strs_model(queue_init@),
        Seq::empty(),
        poss_model(acc_init@),
        bfs_fuel(ts.len() as nat),
    );
    let n: u128 = types.len() as u128;
    proof {
        let m: u128 = 0xFFFF_FFFF_FFFF_FFFFu128;
        assert(n <= m);
        assert(n * n <= m * m) by (nonlinear_arith)
            requires
                0 <= n <= m,
        {
        }
        assert(m * m + m + 1 <= u128::MAX);
    }
    let fuel0: u128 = n * n + n + 1;
    proof {
        assert(fuel0 as nat == bfs_fuel(ts.len() as nat));
    }
    let mut fuel: u128 = fuel0;
    let mut queue = queue_init;
    let mut visited: Vec<String> = Vec::new();
    let mut acc = acc_init;
    let mut failed = false;
    proof {
        assert(crate::schema::strs_model(visited@) =~= Seq::<Seq<char>>::empty());
    }
    while queue.len() > 0 && !failed
        invariant
            ts == types@,
            !failed ==> goal == bfs_spec(
                ts,
                obj@,
                crate::schema::strs_model(queue@),
                crate::schema::strs_model(visited@),
                poss_model(acc@),
                fuel as nat,
            ),
            failed ==> goal is None,
        decreases fuel, (if failed { 0int } else { 1int }),
    {
        if fuel == 0 {
            proof {
                assert(crate::schema::strs_model(queue@).len() == queue@.len());
            }
            failed = true;
        } else {
            fuel = fuel - 1;
            let ghost q0 = crate::schema::strs_model(queue@);
            let ghost v0 = crate::schema::strs_model(visited@);
            let ghost a0 = poss_model(acc@);
            let iface = queue.remove(0);
            proof {
                assert(crate::schema::strs_model(queue@) =~= q0.drop_first());
                assert(q0[0] == iface@);
            }
            if crate::groups::contains_string(&visited, &iface) {
            } else {
                poss_append_exec(&mut acc, &iface, obj);
                match type_by_name(types, &iface) {
                    Option::Some(td) => {
                        match td {
                            TypeDefinition::Interface(it) => {
                                let mut more = crate::ast::duplicate_strings(&it.implements_interfaces);
                                crate::ast::append_vec(&mut queue, &mut more);
                                visited.push(iface);
                                proof {
                                    assert(crate::schema::strs_model(queue@) =~= q0.drop_first()
                                        + crate::schema::strs_model(it.implements_interfaces@));
                                    assert(crate::schema::strs_model(visited@) =~= v0.push(q0[0]));
                                }
                            },
                            _ => {
                                failed = true;
                            },
                        }
                    },
                    Option::None => {
                        failed = true;
                    },
                }
            }
        }
    }
    if failed {
        Result::Err(crate::metadata::PlanError::Composition)
    } else {
        proof {
            assert(crate::schema::strs_model(queue@).len() == 0);
        }
        Result::Ok(acc)
    }
}

/// The possible-types table of a schema: each union maps to its members;
/// each object maps to itself and stands under every interface it
/// transitively implements, objects in schema order.
pub open spec fn build_poss_spec(
    defs: Seq<SchemaDefinition>,
    ts: Seq<TypeDefinition>,
    acc: Seq<PossModel>,
    fuel: nat,
) -> Option<Seq<PossModel>>
    decreases defs.len(),
{
    if defs.len() == 0 {
        Option::Some(acc)
    } else {
        let rest = defs.drop_first();
        match defs[0] {
            SchemaDefinition::Type(td) => match td {
                TypeDefinition::Union(u) => build_poss_spec(
                    rest,
                    ts,
                    poss_upsert(acc, u.name@, crate::schema::strs_model(u.types@)),
                    fuel,
                ),
                TypeDefinition::Object(o) => {
                    let acc1 = poss_upsert(acc, o.name@, seq![o.name@]);
                    match bfs_spec(
                        ts,
                        o.name@,
                        crate::schema::strs_model(o.implements_interfaces@),
                        Seq::empty(),
                        acc1,
                        fuel,
                    ) {
                        Option::Some(a2) => build_poss_spec(rest, ts, a2, fuel),
                        Option::None => Option::None,
                    }
                },
                _ => build_poss_spec(rest, ts, acc, fuel),
            },
            SchemaDefinition::Other => build_poss_spec(rest, ts, acc, fuel),
        }
    }
}

pub fn build_possible_types(schema: &SchemaDocument, types: &Vec<TypeDefinition>) -> (r: Result<
    Vec<PossibleEntry>,
    crate::metadata::PlanError,
>)
    ensures
        match build_poss_spec(
            schema.definitions@,
            types@,
            Seq::empty(),
            bfs_fuel(types@.len() as nat),
        ) {
            Option::Some(a) => r matches Result::Ok(v) && poss_model(v@) == a,
            Option::None => r matches Result::Err(e) && e == crate::metadata::PlanError::Composition,
        },
{
    let ghost ts = types@;
    let ghost fuel: nat = bfs_fuel(ts.len() as nat);
    let ghost goal = build_poss_spec(schema.definitions@, ts, Seq::empty(), fuel);
    let defs = &schema.definitions;
    let ghost ds = defs@;
    let mut acc: Vec<PossibleEntry> = Vec::new();
    proof {
        assert(poss_model(acc@) =~= Seq::<PossModel>::empty());
        assert(ds.skip(0) =~= ds);
    }
    let mut i: usize = 0;
    while i < defs.len()
        invariant
            ts == types@,
            ds == defs@,
            ds == schema.definitions@,
            i <= ds.len(),
            fuel == bfs_fuel(ts.len() as nat),
            goal == build_poss_spec(ds, ts, Seq::empty(), fuel),
            goal == build_poss_spec(ds.skip(i as int), ts, poss_model(acc@), fuel),
        decreases ds.len() - i,
    {
        proof {
            assert(ds.skip(i as int)[0] == ds[i as int]);
            assert(ds.skip(i as int).drop_first() =~= ds.skip(i as int + 1));
        }
        match &defs[i] {
            SchemaDefinition::Type(td) => {
                match td {
                    TypeDefinition::Union(u) => {
                        let members = crate::ast::duplicate_strings(&u.types);
                        poss_upsert_exec(&mut acc, &u.name, members);
                    },
                    TypeDefinition::Object(o) => {
                        let mut selfvec: Vec<String> = Vec::new();
                        selfvec.push(o.name.clone());
                        proof {
                            assert(crate::schema::strs_model(selfvec@) =~= seq![o.name@]);
                        }
                        poss_upsert_exec(&mut acc, &o.name, selfvec);
                        let queue = crate::ast::duplicate_strings(&o.implements_interfaces);
                        let acc_in = acc;
                        match bfs_exec(types, &o.name, queue, acc_in) {
                            Result::Ok(a2) => {
                                acc = a2;
                            },
                            Result::Err(e) => {
                                return Result::Err(e);
                            },
                        }
                    },
                    _ => {},
                }
            },
            SchemaDefinition::Other => {},
        }
        i = i + 1;
    }
    proof {
        assert(ds.skip(ds.len() as int).len() == 0);
    }
    Result::Ok(acc)
}

} // verus!
