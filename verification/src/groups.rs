use vstd::prelude::*;
use crate::ast::{
    FieldSel, FieldSelModel, Selection, Sel, field_sels_model, sels_model, duplicate_field_sels,
    duplicate_strings, append_vec, typename_name, typename_field_sel, is_typename,
};
use crate::metadata::{FederationMetadata, MdModel, PlanError, find_owner, find_base, find_key, find_requires};
use crate::schema::{strs_model, TypeDefinition, FieldDef};

verus! {

// ---------------------------------------------------------------------------
// Fragments kept verbatim inside a group, reserved for automatic
// fragmentisation; planning leaves the slot empty.
// ---------------------------------------------------------------------------

#[verifier::ext_equal]
pub struct NamedFragment {
    pub name: String,
    pub type_condition: String,
    pub selection_set: Vec<Selection>,
}

#[verifier::ext_equal]
pub struct FragModel {
    pub name: Seq<char>,
    pub type_condition: Seq<char>,
    pub sub: Seq<Sel>,
}

impl NamedFragment {
    pub open spec fn model(self) -> FragModel {
        FragModel { name: self.name@, type_condition: self.type_condition@, sub: sels_model(self.selection_set@) }
    }
}

pub open spec fn frags_model(s: Seq<NamedFragment>) -> Seq<FragModel> {
    Seq::new(s.len(), |i: int| s[i].model())
}

// ---------------------------------------------------------------------------
// The fetch group: one unit of work against one subgraph, with the selection
// to request, the entity representation it needs, the response path where
// its payload splices in, and its dependent groups in insertion order.
// ---------------------------------------------------------------------------

#[verifier::ext_equal]
pub struct FetchGroup {
    pub service_name: String,
    pub fields: Vec<FieldSel>,
    pub internal_fragments: Vec<NamedFragment>,
    pub required_fields: Vec<FieldSel>,
    pub provided_fields: Vec<String>,
    pub dependent_groups_by_service: Vec<DependentEntry>,
    pub other_dependent_groups: Vec<FetchGroup>,
    pub merge_at: Vec<String>,
}

#[verifier::ext_equal]
pub struct DependentEntry {
    pub service: String,
    pub group: FetchGroup,
}

#[verifier::ext_equal]
pub struct GroupModel {
    pub service: Seq<char>,
    pub fields: Seq<FieldSelModel>,
    pub internal_fragments: Seq<FragModel>,
    pub required_fields: Seq<FieldSelModel>,
    pub provided_fields: Seq<Seq<char>>,
    pub deps: Seq<DepModel>,
    pub others: Seq<GroupModel>,
    pub merge_at: Seq<Seq<char>>,
}

#[verifier::ext_equal]
pub struct DepModel {
    pub service: Seq<char>,
    pub group: GroupModel,
}

impl FetchGroup {
    pub open spec fn model(self) -> GroupModel
        decreases self,
    {
        GroupModel {
            service: self.service_name@,
            fields: field_sels_model(self.fields@),
            internal_fragments: frags_model(self.internal_fragments@),
            required_fields: field_sels_model(self.required_fields@),
            provided_fields: strs_model(self.provided_fields@),
            deps: deps_model(self.dependent_groups_by_service@),
            others: groups_model(self.other_dependent_groups@),
            merge_at: strs_model(self.merge_at@),
        }
    }
}

pub open spec fn deps_model(s: Seq<DependentEntry>) -> Seq<DepModel>
    decreases s,
{
    if s.len() == 0 {
        Seq::empty()
    } else {
        seq![DepModel { service: s[0].service@, group: s[0].group.model() }] + deps_model(s.drop_first())
    }
}

pub open spec fn groups_model(s: Seq<FetchGroup>) -> Seq<GroupModel>
    decreases s,
{
    if s.len() == 0 {
        Seq::empty()
    } else {
        seq![s[0].model()] + groups_model(s.drop_first())
    }
}

pub proof fn lemma_deps_model(s: Seq<DependentEntry>)
    ensures
        deps_model(s).len() == s.len(),
        forall|i: int|
            0 <= i < s.len() ==> deps_model(s)[i] == (DepModel {
                service: (#[trigger] s[i]).service@,
                group: s[i].group.model(),
            }),
    decreases s,
{
    if s.len() > 0 {
        lemma_deps_model(s.drop_first());
        assert forall|i: int|
            0 <= i < s.len() implies deps_model(s)[i] == (DepModel {
                service: (#[trigger] s[i]).service@,
                group: s[i].group.model(),
            }) by {
            if i > 0 {
                assert(s.drop_first()[i - 1] == s[i]);
                assert(deps_model(s)[i] == deps_model(s.drop_first())[i - 1]);
            }
        }
    }
}

pub proof fn lemma_groups_model(s: Seq<FetchGroup>)
    ensures
        groups_model(s).len() == s.len(),
        forall|i: int| 0 <= i < s.len() ==> groups_model(s)[i] == (#[trigger] s[i]).model(),
    decreases s,
{
    if s.len() > 0 {
        lemma_groups_model(s.drop_first());
        assert forall|i: int| 0 <= i < s.len() implies groups_model(s)[i] == (#[trigger] s[i]).model() by {
            if i > 0 {
                assert(s.drop_first()[i - 1] == s[i]);
                assert(groups_model(s)[i] == groups_model(s.drop_first())[i - 1]);
            }
        }
    }
}

// ---------------------------------------------------------------------------
// Construction.
// ---------------------------------------------------------------------------

/// A group for `service` with the given merge path and provided fields, and
/// everything else empty.
pub open spec fn new_model(
    service: Seq<char>,
    merge_at: Seq<Seq<char>>,
    provided: Seq<Seq<char>>,
) -> GroupModel {
    GroupModel {
        service: service,
        fields: Seq::empty(),
        internal_fragments: Seq::empty(),
        required_fields: Seq::empty(),
        provided_fields: provided,
        deps: Seq::empty(),
        others: Seq::empty(),
        merge_at: merge_at,
    }
}

/// A group for `service` with the default (empty) merge path.
pub open spec fn init_model(service: Seq<char>) -> GroupModel {
    new_model(service, Seq::empty(), Seq::empty())
}

impl FetchGroup {
    pub fn new(service_name: String, merge_at: Vec<String>, provided_fields: Vec<String>) -> (g: FetchGroup)
        ensures
            g.model() == new_model(service_name@, strs_model(merge_at@), strs_model(provided_fields@)),
    {
        let g = FetchGroup {
            service_name,
            merge_at,
            provided_fields,
            fields: Vec::new(),
            internal_fragments: Vec::new(),
            required_fields: Vec::new(),
            dependent_groups_by_service: Vec::new(),
            other_dependent_groups: Vec::new(),
        };
        proof {
            assert(g.model() =~~= new_model(g.service_name@, strs_model(g.merge_at@), strs_model(
                g.provided_fields@,
            )));
        }
        g
    }

    pub fn init(service_name: String) -> (g: FetchGroup)
        ensures
            g.model() == init_model(service_name@),
    {
        let g = FetchGroup::new(service_name, Vec::new(), Vec::new());
        proof {
            assert(g.model() =~~= init_model(g.service_name@));
        }
        g
    }
}

// ---------------------------------------------------------------------------
// Dependent groups.  `dependent_group_for_service` is the only way a
// dependent fetch is added: the dependent inherits the parent's merge path
// when it has none, and whatever it requires the parent fetches itself.
// ---------------------------------------------------------------------------

/// The position of the dependent group for `service`: the first entry with
/// that service, or `deps.len()` when there is none.
pub open spec fn dep_index(deps: Seq<DepModel>, service: Seq<char>) -> int
    decreases deps.len(),
{
    if deps.len() == 0 {
        0
    } else if deps[0].service == service {
        0
    } else {
        1 + dep_index(deps.drop_first(), service)
    }
}

pub proof fn lemma_dep_index_found(deps: Seq<DepModel>, service: Seq<char>, i: int)
    requires
        0 <= i < deps.len(),
        forall|j: int| 0 <= j < i ==> (#[trigger] deps[j]).service != service,
        deps[i].service == service,
    ensures
        dep_index(deps, service) == i,
    decreases i,
{
    if i > 0 {
        assert(deps[0].service != service);
        lemma_dep_index_found(deps.drop_first(), service, i - 1);
        assert(deps.drop_first()[i - 1] == deps[i]);
    }
}

pub proof fn lemma_dep_index_absent(deps: Seq<DepModel>, service: Seq<char>)
    requires
        forall|j: int| 0 <= j < deps.len() ==> (#[trigger] deps[j]).service != service,
    ensures
        dep_index(deps, service) == deps.len(),
    decreases deps.len(),
{
    if deps.len() > 0 {
        lemma_dep_index_absent(deps.drop_first(), service);
    }
}

pub proof fn lemma_dep_index_in_range(deps: Seq<DepModel>, service: Seq<char>)
    ensures
        0 <= dep_index(deps, service) <= deps.len(),
        dep_index(deps, service) < deps.len() ==> deps[dep_index(deps, service)].service == service,
    decreases deps.len(),
{
    if deps.len() > 0 && deps[0].service != service {
        lemma_dep_index_in_range(deps.drop_first(), service);
    }
}

/// How a dependent group changes when it is (re)used: an empty merge path is
/// inherited from the parent, and non-empty required fields are appended.
pub open spec fn updated_dep_group(
    child: GroupModel,
    parent_merge_at: Seq<Seq<char>>,
    required: Seq<FieldSelModel>,
) -> GroupModel {
    let c1 = if child.merge_at.len() == 0 {
        GroupModel { merge_at: parent_merge_at, ..child }
    } else {
        child
    };
    if required.len() > 0 {
        GroupModel { required_fields: c1.required_fields + required, ..c1 }
    } else {
        c1
    }
}

/// The whole effect of asking `g` for its dependent group on `service` with
/// `required`: the dependent is created at the end on first use, the
/// dependent's required fields grow by `required`, and so do the parent's
/// own fields, since the parent must fetch what the child requires.
pub open spec fn with_dependent(g: GroupModel, service: Seq<char>, required: Seq<FieldSelModel>) -> GroupModel {
    let i = dep_index(g.deps, service);
    let deps0 = if i < g.deps.len() {
        g.deps
    } else {
        g.deps.push(DepModel { service: service, group: init_model(service) })
    };
    let child = updated_dep_group(deps0[i].group, g.merge_at, required);
    let deps1 = deps0.update(i, DepModel { service: service, group: child });
    let fields1 = if required.len() > 0 {
        g.fields + required
    } else {
        g.fields
    };
    GroupModel { fields: fields1, deps: deps1, ..g }
}

/// Finds the dependent entry for `service`; `deps.len()` when absent.
fn find_dep_entry(deps: &Vec<DependentEntry>, service: &String) -> (r: usize)
    ensures
        r as int == dep_index(deps_model(deps@), service@),
        r <= deps@.len(),
{
    let ghost dm = deps_model(deps@);
    proof {
        lemma_deps_model(deps@);
    }
    let mut i: usize = 0;
    while i < deps.len()
        invariant
            i <= deps@.len(),
            dm == deps_model(deps@),
            dm.len() == deps@.len(),
            forall|j: int|
                0 <= j < deps@.len() ==> dm[j] == (DepModel {
                    service: (#[trigger] deps@[j]).service@,
                    group: deps@[j].group.model(),
                }),
            forall|j: int| 0 <= j < i ==> (#[trigger] dm[j]).service != service@,
        decreases deps@.len() - i,
    {
        if deps[i].service == *service {
            proof {
                lemma_dep_index_found(dm, service@, i as int);
            }
            return i;
        }
        i = i + 1;
    }
    proof {
        lemma_dep_index_absent(dm, service@);
    }
    i
}

impl FetchGroup {
    /// The sanctioned way to add or reach a dependent fetch.  Returns the
    /// position of the dependent group for `service` among this group's
    /// dependents, creating it on first use.
    pub fn dependent_group_for_service(&mut self, service: &String, required_fields: Vec<FieldSel>) -> (idx:
        usize)
        ensures
            final(self).model() == with_dependent(
                old(self).model(),
                service@,
                field_sels_model(required_fields@),
            ),
            idx as int == dep_index(old(self).model().deps, service@),
            idx < final(self).model().deps.len(),
    {
        let ghost g0 = self.model();
        let ghost req = field_sels_model(required_fields@);
        let idx = find_dep_entry(&self.dependent_groups_by_service, service);
        let ghost deps_vec0 = self.dependent_groups_by_service@;
        if idx == self.dependent_groups_by_service.len() {
            self.dependent_groups_by_service.push(DependentEntry {
                service: service.clone(),
                group: FetchGroup::init(service.clone()),
            });
            proof {
                lemma_deps_model(deps_vec0);
                lemma_deps_model(self.dependent_groups_by_service@);
                let dv1 = self.dependent_groups_by_service@;
                let pushed = g0.deps.push(DepModel { service: service@, group: init_model(service@) });
                assert forall|j: int| 0 <= j < dv1.len() implies deps_model(dv1)[j] == pushed[j] by {
                    if j < deps_vec0.len() {
                        assert(dv1[j] == deps_vec0[j]);
                        assert(deps_model(dv1)[j] == (DepModel {
                            service: dv1[j].service@,
                            group: dv1[j].group.model(),
                        }));
                        assert(deps_model(deps_vec0)[j] == (DepModel {
                            service: deps_vec0[j].service@,
                            group: deps_vec0[j].group.model(),
                        }));
                    } else {
                        assert(deps_model(dv1)[j] == (DepModel {
                            service: dv1[j].service@,
                            group: dv1[j].group.model(),
                        }));
                    }
                }
                assert(deps_model(dv1) =~= pushed);
            }
        }
        let ghost deps0 = deps_model(self.dependent_groups_by_service@);
        let ghost deps_vec1 = self.dependent_groups_by_service@;
        let mut entry = self.dependent_groups_by_service.remove(idx);
        let ghost child0 = entry.group.model();
        proof {
            lemma_deps_model(deps_vec1);
            assert(child0 == deps0[idx as int].group);
            assert(entry.service@ == deps0[idx as int].service);
        }
        if entry.group.merge_at.len() == 0 {
            entry.group.merge_at = duplicate_strings(&self.merge_at);
        }
        let required_len = required_fields.len();
        if required_len > 0 {
            let mut req_copy = duplicate_field_sels(&required_fields);
            append_vec(&mut entry.group.required_fields, &mut req_copy);
            let mut moved = required_fields;
            append_vec(&mut self.fields, &mut moved);
        }
        proof {
            assert(field_sels_model(entry.group.required_fields@) =~= (if req.len() > 0 {
                child0.required_fields + req
            } else {
                child0.required_fields
            }));
            assert(entry.group.model() =~~= updated_dep_group(child0, g0.merge_at, req));
            if req.len() > 0 {
                assert(field_sels_model(self.fields@) =~= g0.fields + req);
            }
        }
        let ghost entry_final = entry;
        self.dependent_groups_by_service.insert(idx, entry);
        proof {
            let dv = self.dependent_groups_by_service@;
            lemma_deps_model(dv);
            lemma_deps_model(deps_vec1);
            lemma_dep_index_in_range(g0.deps, service@);
            assert(dv =~= deps_vec1.update(idx as int, entry_final));
            let expected = deps0.update(idx as int, DepModel {
                service: service@,
                group: updated_dep_group(child0, g0.merge_at, req),
            });
            assert forall|j: int| 0 <= j < dv.len() implies deps_model(dv)[j] == expected[j] by {
                assert(deps_model(dv)[j] == (DepModel { service: dv[j].service@, group: dv[j].group.model() }));
                if j != idx as int {
                    assert(dv[j] == deps_vec1[j]);
                    assert(deps_model(deps_vec1)[j] == (DepModel {
                        service: deps_vec1[j].service@,
                        group: deps_vec1[j].group.model(),
                    }));
                } else {
                    assert(dv[j] == entry_final);
                    assert(entry_final.group.model() == updated_dep_group(child0, g0.merge_at, req));
                    assert(entry_final.service@ == service@);
                }
            }
            assert(deps_model(dv) =~= expected);
            assert(final(self).model() =~~= with_dependent(g0, service@, req));
        }
        idx
    }

    /// Appends one selection to this group's fields.
    pub fn push_field(&mut self, sel: FieldSel)
        ensures
            final(self).model() == with_field(old(self).model(), sel.model()),
    {
        let ghost g0 = self.model();
        let ghost sm = sel.model();
        self.fields.push(sel);
        proof {
            assert(field_sels_model(self.fields@) =~= g0.fields.push(sm));
            assert(final(self).model() =~~= with_field(g0, sm));
        }
    }
}

/// A group with one more selection in its fields.
pub open spec fn with_field(g: GroupModel, f: FieldSelModel) -> GroupModel {
    GroupModel { fields: g.fields.push(f), ..g }
}


/// A group with one more selection in the fields of its dependent at `i`.
pub open spec fn with_field_dep(g: GroupModel, i: int, f: FieldSelModel) -> GroupModel {
    GroupModel {
        deps: g.deps.update(i, DepModel { service: g.deps[i].service, group: with_field(g.deps[i].group, f) }),
        ..g
    }
}

/// A group with one more selection two dependents deep, at `i` then `j`.
pub open spec fn with_field_chain(g: GroupModel, i: int, j: int, f: FieldSelModel) -> GroupModel {
    GroupModel {
        deps: g.deps.update(i, DepModel {
            service: g.deps[i].service,
            group: with_field_dep(g.deps[i].group, j, f),
        }),
        ..g
    }
}

/// Reaching the dependent on `base` and then, inside it, the dependent on
/// `owning`: the entity must exist at its base service before an extension
/// field on `owning` can be resolved.
pub open spec fn with_chained(
    g: GroupModel,
    base: Seq<char>,
    keys: Seq<FieldSelModel>,
    owning: Seq<char>,
    required: Seq<FieldSelModel>,
) -> GroupModel {
    let g1 = with_dependent(g, base, keys);
    let i = dep_index(g.deps, base);
    let child2 = with_dependent(g1.deps[i].group, owning, required);
    GroupModel { deps: g1.deps.update(i, DepModel { service: g1.deps[i].service, group: child2 }), ..g1 }
}


// ---------------------------------------------------------------------------
// Group selection: routing one field to the fetch group that should receive
// it.  Three strategies share the same operations: Parallel for query roots,
// Serial for mutation roots, SubField below the root.
// ---------------------------------------------------------------------------

/// Where a sub-field was routed: the parent group itself, the dependent
/// group at the given position, or a dependent of a dependent.
#[derive(Clone, Copy, Debug, PartialEq, Eq, Structural)]
pub enum GroupTarget {
    Parent,
    Dependent(usize),
    Chained(usize, usize),
}

/// The routing decision for one sub-field, before it is carried out.
pub enum RoutePlan {
    Parent,
    Dep { service: Seq<char>, required: Seq<FieldSelModel> },
    Chain { base: Seq<char>, keys: Seq<FieldSelModel>, owning: Seq<char>, required: Seq<FieldSelModel> },
    Abort,
}

/// What the metadata answers for the key fields of `t` toward `service`.
pub open spec fn key_fields_spec(md: MdModel, t: Seq<char>, service: Seq<char>) -> Seq<FieldSelModel> {
    match find_key(md.keys, t, service) {
        Option::Some(k) => k,
        Option::None => seq![typename_field_sel(t)],
    }
}

/// What the metadata answers for the `@requires` of `fname` on `t` at `service`.
pub open spec fn required_spec(md: MdModel, t: Seq<char>, fname: Seq<char>, service: Seq<char>) -> Seq<
    FieldSelModel,
> {
    match find_requires(md.requires, t, fname, service) {
        Option::Some(q) => q,
        Option::None => Seq::empty(),
    }
}

/// The keys of `t` at the parent group's service; when those reduce to
/// `__typename` alone, no key applies there, and the owning service's keys
/// are used instead.
pub open spec fn effective_keys(md: MdModel, t: Seq<char>, from: Seq<char>, owning: Seq<char>) -> Seq<
    FieldSelModel,
> {
    let k = key_fields_spec(md, t, from);
    if k.len() == 1 && k[0].def_name == typename_name() {
        key_fields_spec(md, t, owning)
    } else {
        k
    }
}

/// Every required field's response key is already provided.
pub open spec fn all_in_provided(req: Seq<FieldSelModel>, provided: Seq<Seq<char>>) -> bool {
    forall|k: int| 0 <= k < req.len() ==> provided.contains((#[trigger] req[k]).def_name)
}

/// The base and owning service consulted for a field: the parent group's own
/// service for a value type, the metadata's tables otherwise.
pub open spec fn base_of(md: MdModel, pg: GroupModel, parent: Seq<char>) -> Option<Seq<char>> {
    if md.value_types.contains(parent) {
        Option::Some(pg.service)
    } else {
        find_base(md.bases, parent)
    }
}

pub open spec fn owning_of(md: MdModel, pg: GroupModel, parent: Seq<char>, fname: Seq<char>) -> Option<
    Seq<char>,
> {
    if md.value_types.contains(parent) {
        Option::Some(pg.service)
    } else {
        find_owner(md.owners, parent, fname)
    }
}

/// The sub-field routing policy: `__typename` stays put; a field whose
/// owning service is its type's base service either stays in the parent
/// group or crosses into a dependent group keyed by the parent-side keys; an
/// extension field carries its `@requires`, staying put when those are
/// provided, and crossing through the base service first when the parent
/// group is neither base nor already satisfied.
pub open spec fn sub_route(md: MdModel, pg: GroupModel, parent: Seq<char>, fname: Seq<char>) -> RoutePlan {
    if fname == typename_name() {
        RoutePlan::Parent
    } else {
        match (base_of(md, pg, parent), owning_of(md, pg, parent, fname)) {
            (Option::Some(b), Option::Some(o)) => {
                if o == b {
                    if o == pg.service || pg.provided_fields.contains(fname) {
                        RoutePlan::Parent
                    } else {
                        RoutePlan::Dep { service: o, required: effective_keys(md, parent, pg.service, o) }
                    }
                } else {
                    let required = required_spec(md, parent, fname, o);
                    if all_in_provided(required, pg.provided_fields) {
                        if o == pg.service {
                            RoutePlan::Parent
                        } else {
                            RoutePlan::Dep { service: o, required }
                        }
                    } else if b == pg.service {
                        RoutePlan::Dep { service: o, required }
                    } else {
                        RoutePlan::Chain {
                            base: b,
                            keys: key_fields_spec(md, parent, pg.service),
                            owning: o,
                            required,
                        }
                    }
                }
            },
            _ => RoutePlan::Abort,
        }
    }
}

/// Whether `s` is a member of the string vector, by characters.
pub fn contains_string(v: &Vec<String>, s: &String) -> (r: bool)
    ensures
        r == strs_model(v@).contains(s@),
{
    let ghost m = strs_model(v@);
    let mut i: usize = 0;
    while i < v.len()
        invariant
            i <= v@.len(),
            m == strs_model(v@),
            m.len() == v@.len(),
            forall|j: int| 0 <= j < v@.len() ==> m[j] == (#[trigger] v@[j])@,
            forall|j: int| 0 <= j < i ==> m[j] != s@,
        decreases v@.len() - i,
    {
        if v[i] == *s {
            proof {
                assert(m[i as int] == s@);
            }
            return true;
        }
        i = i + 1;
    }
    proof {
        assert forall|j: int| 0 <= j < m.len() implies m[j] != s@ by {}
    }
    false
}

/// Whether every required field's definition name is among the provided keys.
pub fn all_provided(provided: &Vec<String>, req: &Vec<FieldSel>) -> (r: bool)
    ensures
        r == all_in_provided(field_sels_model(req@), strs_model(provided@)),
{
    let ghost rm = field_sels_model(req@);
    let mut i: usize = 0;
    while i < req.len()
        invariant
            i <= req@.len(),
            rm == field_sels_model(req@),
            rm.len() == req@.len(),
            forall|j: int| 0 <= j < req@.len() ==> rm[j] == (#[trigger] req@[j]).model(),
            forall|j: int| 0 <= j < i ==> strs_model(provided@).contains((#[trigger] rm[j]).def_name),
        decreases req@.len() - i,
    {
        if !contains_string(provided, &req[i].def_name) {
            proof {
                assert(rm[i as int].def_name == req@[i as int].def_name@);
                assert(!strs_model(provided@).contains(rm[i as int].def_name));
            }
            return false;
        }
        i = i + 1;
    }
    true
}

// ---------------------------------------------------------------------------
// SubField selection: bound to a parent group that accumulates everything.
// ---------------------------------------------------------------------------

pub struct GroupForSubField {
    pub parent_group: FetchGroup,
}

impl GroupForSubField {
    pub fn new(parent_group: FetchGroup) -> (s: Self)
        ensures
            s.parent_group == parent_group,
    {
        Self { parent_group }
    }

    /// Routes one field per the sub-field policy, creating whatever
    /// dependent groups the route needs, and says where the field's
    /// selection belongs.
    pub fn group_for_field(&mut self, md: &FederationMetadata, parent_type: &TypeDefinition, field_def: &FieldDef) -> (r: Result<GroupTarget, PlanError>)
        requires
            field_def.name@ == typename_name() || md.model().value_types.contains(parent_type.spec_name())
                || parent_type matches TypeDefinition::Object(_),
        ensures
            ({
                let plan = sub_route(md.model(), old(self).parent_group.model(), parent_type.spec_name(), field_def.name@);
                let pg0 = old(self).parent_group.model();
                match plan {
                    RoutePlan::Parent => r matches Result::Ok(t) && t == GroupTarget::Parent
                        && final(self).parent_group.model() == pg0,
                    RoutePlan::Dep { service, required } => {
                        &&& final(self).parent_group.model() == with_dependent(pg0, service, required)
                        &&& (r matches Result::Ok(t) && t matches GroupTarget::Dependent(i)
                            && i as int == dep_index(pg0.deps, service))
                    },
                    RoutePlan::Chain { base, keys, owning, required } => {
                        &&& final(self).parent_group.model() == with_chained(pg0, base, keys, owning, required)
                        &&& (r matches Result::Ok(t) && t matches GroupTarget::Chained(i, j)
                            && i as int == dep_index(pg0.deps, base)
                            && j as int == dep_index(
                                with_dependent(pg0, base, keys).deps[dep_index(pg0.deps, base)].group.deps,
                                owning,
                            ))
                    },
                    RoutePlan::Abort => r matches Result::Err(e) && e == PlanError::Composition
                        && final(self).parent_group.model() == pg0,
                }
            }),
    {
        let ghost md_m = md.model();
        let ghost pg0 = self.parent_group.model();
        let ghost pname = parent_type.spec_name();
        if is_typename(&field_def.name) {
            return Result::Ok(GroupTarget::Parent);
        }
        let is_vt = md.is_value_type(parent_type);
        let (base_service, owning_service): (String, String) = if is_vt {
            (self.parent_group.service_name.clone(), self.parent_group.service_name.clone())
        } else {
            let obj = match parent_type {
                TypeDefinition::Object(o) => o,
                _ => {
                    proof {
                        assert(false);
                    }
                    unreached()
                },
            };
            let base = match md.base_service(obj) {
                Result::Ok(s) => s,
                Result::Err(e) => {
                    return Result::Err(e);
                },
            };
            let owning = match md.owning_service(obj, field_def) {
                Result::Ok(s) => s,
                Result::Err(e) => {
                    return Result::Err(e);
                },
            };
            (base, owning)
        };
        proof {
            assert(base_of(md_m, pg0, pname) == Option::Some(base_service@));
            assert(owning_of(md_m, pg0, pname, field_def.name@) == Option::Some(owning_service@));
        }
        if owning_service == base_service {
            if owning_service == self.parent_group.service_name || contains_string(
                &self.parent_group.provided_fields,
                &field_def.name,
            ) {
                Result::Ok(GroupTarget::Parent)
            } else {
                let mut key_fields = md.key_fields(parent_type, &self.parent_group.service_name);
                let fallback = key_fields.len() == 1 && is_typename(&key_fields[0].def_name);
                proof {
                    if fallback {
                        assert(field_sels_model(key_fields@)[0].def_name == key_fields@[0].def_name@);
                    }
                }
                if fallback {
                    key_fields = md.key_fields(parent_type, &owning_service);
                }
                proof {
                    assert(field_sels_model(key_fields@) == effective_keys(md_m, pname, pg0.service, owning_service@));
                }
                let i = self.parent_group.dependent_group_for_service(&owning_service, key_fields);
                Result::Ok(GroupTarget::Dependent(i))
            }
        } else {
            let required = md.required_fields(parent_type, field_def, &owning_service);
            proof {
                assert(field_sels_model(required@) == required_spec(md_m, pname, field_def.name@, owning_service@));
            }
            let prov_ok = all_provided(&self.parent_group.provided_fields, &required);
            if prov_ok {
                if owning_service == self.parent_group.service_name {
                    Result::Ok(GroupTarget::Parent)
                } else {
                    let i = self.parent_group.dependent_group_for_service(&owning_service, required);
                    Result::Ok(GroupTarget::Dependent(i))
                }
            } else if base_service == self.parent_group.service_name {
                let i = self.parent_group.dependent_group_for_service(&owning_service, required);
                Result::Ok(GroupTarget::Dependent(i))
            } else {
                let key_fields = md.key_fields(parent_type, &self.parent_group.service_name);
                proof {
                    assert(field_sels_model(key_fields@) == key_fields_spec(md_m, pname, pg0.service));
                }
                let ghost keys_m = field_sels_model(key_fields@);
                let ghost req_m = field_sels_model(required@);
                let i = self.parent_group.dependent_group_for_service(&base_service, key_fields);
                let ghost m1 = self.parent_group.model();
                let ghost dv1 = self.parent_group.dependent_groups_by_service@;
                proof {
                    lemma_deps_model(dv1);
                    assert(m1.deps.len() == dv1.len());
                }
                let mut entry = self.parent_group.dependent_groups_by_service.remove(i);
                let ghost child1 = entry.group.model();
                proof {
                    lemma_deps_model(dv1);
                    assert(child1 == m1.deps[i as int].group);
                    assert(entry.service@ == m1.deps[i as int].service);
                }
                let j = entry.group.dependent_group_for_service(&owning_service, required);
                let ghost entry_final = entry;
                self.parent_group.dependent_groups_by_service.insert(i, entry);
                proof {
                    let dv = self.parent_group.dependent_groups_by_service@;
                    lemma_deps_model(dv);
                    lemma_deps_model(dv1);
                    assert(dv =~= dv1.update(i as int, entry_final));
                    let expected = m1.deps.update(i as int, DepModel {
                        service: m1.deps[i as int].service,
                        group: with_dependent(child1, owning_service@, req_m),
                    });
                    assert forall|k: int| 0 <= k < dv.len() implies deps_model(dv)[k] == expected[k] by {
                        assert(deps_model(dv)[k] == (DepModel {
                            service: dv[k].service@,
                            group: dv[k].group.model(),
                        }));
                        if k != i as int {
                            assert(dv[k] == dv1[k]);
                            assert(deps_model(dv1)[k] == (DepModel {
                                service: dv1[k].service@,
                                group: dv1[k].group.model(),
                            }));
                        } else {
                            assert(dv[k] == entry_final);
                        }
                    }
                    assert(deps_model(dv) =~= expected);
                    assert(final(self).parent_group.model() =~~= with_chained(pg0, base_service@, keys_m, owning_service@, req_m));
                }
                Result::Ok(GroupTarget::Chained(i, j))
            }
        }
    }

    /// Appends the field's selection to the routed group.
    pub fn push_field(&mut self, target: GroupTarget, sel: FieldSel)
        requires
            target matches GroupTarget::Dependent(i) ==> i < old(self).parent_group.model().deps.len(),
            target matches GroupTarget::Chained(i, j) ==> i < old(self).parent_group.model().deps.len()
                && j < old(self).parent_group.model().deps[i as int].group.deps.len(),
        ensures
            ({
                let pg0 = old(self).parent_group.model();
                match target {
                    GroupTarget::Parent => final(self).parent_group.model() == with_field(pg0, sel.model()),
                    GroupTarget::Dependent(i) => final(self).parent_group.model() == with_field_dep(
                        pg0,
                        i as int,
                        sel.model(),
                    ),
                    GroupTarget::Chained(i, j) => final(self).parent_group.model() == with_field_chain(
                        pg0,
                        i as int,
                        j as int,
                        sel.model(),
                    ),
                }
            }),
    {
        let ghost pg0 = self.parent_group.model();
        match target {
            GroupTarget::Parent => {
                self.parent_group.push_field(sel);
            },
            GroupTarget::Dependent(i) => {
                let ghost dv0 = self.parent_group.dependent_groups_by_service@;
                proof {
                    lemma_deps_model(dv0);
                }
                let mut entry = self.parent_group.dependent_groups_by_service.remove(i);
                entry.group.push_field(sel);
                let ghost entry_final = entry;
                self.parent_group.dependent_groups_by_service.insert(i, entry);
                proof {
                    let dv = self.parent_group.dependent_groups_by_service@;
                    lemma_deps_model(dv);
                    assert(dv =~= dv0.update(i as int, entry_final));
                    let expected = pg0.deps.update(i as int, DepModel {
                        service: pg0.deps[i as int].service,
                        group: with_field(pg0.deps[i as int].group, sel.model()),
                    });
                    assert forall|k: int| 0 <= k < dv.len() implies deps_model(dv)[k] == expected[k] by {
                        assert(deps_model(dv)[k] == (DepModel {
                            service: dv[k].service@,
                            group: dv[k].group.model(),
                        }));
                        if k != i as int {
                            assert(dv[k] == dv0[k]);
                        } else {
                            assert(dv[k] == entry_final);
                        }
                    }
                    assert(deps_model(dv) =~= expected);
                    assert(final(self).parent_group.model() =~~= with_field_dep(pg0, i as int, sel.model()));
                }
            },
            GroupTarget::Chained(i, j) => {
                let ghost dv0 = self.parent_group.dependent_groups_by_service@;
                proof {
                    lemma_deps_model(dv0);
                }
                let mut entry = self.parent_group.dependent_groups_by_service.remove(i);
                let ghost child0 = entry.group.model();
                let ghost cv0 = entry.group.dependent_groups_by_service@;
                proof {
                    lemma_deps_model(cv0);
                    assert(child0 == pg0.deps[i as int].group);
                }
                let mut inner = entry.group.dependent_groups_by_service.remove(j);
                inner.group.push_field(sel);
                let ghost inner_final = inner;
                entry.group.dependent_groups_by_service.insert(j, inner);
                proof {
                    let cv = entry.group.dependent_groups_by_service@;
                    lemma_deps_model(cv);
                    assert(cv =~= cv0.update(j as int, inner_final));
                    let cexpected = child0.deps.update(j as int, DepModel {
                        service: child0.deps[j as int].service,
                        group: with_field(child0.deps[j as int].group, sel.model()),
                    });
                    assert forall|k: int| 0 <= k < cv.len() implies deps_model(cv)[k] == cexpected[k] by {
                        assert(deps_model(cv)[k] == (DepModel {
                            service: cv[k].service@,
                            group: cv[k].group.model(),
                        }));
                        if k != j as int {
                            assert(cv[k] == cv0[k]);
                        } else {
                            assert(cv[k] == inner_final);
                        }
                    }
                    assert(deps_model(cv) =~= cexpected);
                    assert(entry.group.model() =~~= with_field_dep(child0, j as int, sel.model()));
                }
                let ghost entry_final = entry;
                self.parent_group.dependent_groups_by_service.insert(i, entry);
                proof {
                    let dv = self.parent_group.dependent_groups_by_service@;
                    lemma_deps_model(dv);
                    assert(dv =~= dv0.update(i as int, entry_final));
                    let expected = pg0.deps.update(i as int, DepModel {
                        service: pg0.deps[i as int].service,
                        group: with_field_dep(pg0.deps[i as int].group, j as int, sel.model()),
                    });
                    assert forall|k: int| 0 <= k < dv.len() implies deps_model(dv)[k] == expected[k] by {
                        assert(deps_model(dv)[k] == (DepModel {
                            service: dv[k].service@,
                            group: dv[k].group.model(),
                        }));
                        if k != i as int {
                            assert(dv[k] == dv0[k]);
                        } else {
                            assert(dv[k] == entry_final);
                        }
                    }
                    assert(deps_model(dv) =~= expected);
                    assert(final(self).parent_group.model() =~~= with_field_chain(pg0, i as int, j as int, sel.model()));
                }
            },
        }
    }

    /// The singleton list holding the (now enriched) parent group.
    pub fn into_groups(self) -> (r: Vec<FetchGroup>)
        ensures
            groups_model(r@) == seq![self.parent_group.model()],
    {
        let ghost pg = self.parent_group;
        let mut r: Vec<FetchGroup> = Vec::new();
        r.push(self.parent_group);
        proof {
            lemma_groups_model(r@);
            assert(groups_model(r@) =~= seq![pg.model()]);
        }
        r
    }
}


// ---------------------------------------------------------------------------
// Root selection, parallel: one group per owning service, created on first
// sight, kept in insertion order so independent root fields fetch in
// parallel deterministically.
// ---------------------------------------------------------------------------

/// The position of the group for `service`, or `gs.len()` when none exists.
pub open spec fn group_index(gs: Seq<GroupModel>, service: Seq<char>) -> int
    decreases gs.len(),
{
    if gs.len() == 0 {
        0
    } else if gs[0].service == service {
        0
    } else {
        1 + group_index(gs.drop_first(), service)
    }
}

pub proof fn lemma_group_index_found(gs: Seq<GroupModel>, service: Seq<char>, i: int)
    requires
        0 <= i < gs.len(),
        forall|j: int| 0 <= j < i ==> (#[trigger] gs[j]).service != service,
        gs[i].service == service,
    ensures
        group_index(gs, service) == i,
    decreases i,
{
    if i > 0 {
        lemma_group_index_found(gs.drop_first(), service, i - 1);
        assert(gs.drop_first()[i - 1] == gs[i]);
    }
}

pub proof fn lemma_group_index_absent(gs: Seq<GroupModel>, service: Seq<char>)
    requires
        forall|j: int| 0 <= j < gs.len() ==> (#[trigger] gs[j]).service != service,
    ensures
        group_index(gs, service) == gs.len(),
    decreases gs.len(),
{
    if gs.len() > 0 {
        lemma_group_index_absent(gs.drop_first(), service);
    }
}

pub proof fn lemma_group_index_in_range(gs: Seq<GroupModel>, service: Seq<char>)
    ensures
        0 <= group_index(gs, service) <= gs.len(),
        group_index(gs, service) < gs.len() ==> gs[group_index(gs, service)].service == service,
    decreases gs.len(),
{
    if gs.len() > 0 && gs[0].service != service {
        lemma_group_index_in_range(gs.drop_first(), service);
    }
}

/// The parallel strategy's effect: route to the owning service's group,
/// creating it at the end on first sight.
pub open spec fn par_apply(gs: Seq<GroupModel>, service: Seq<char>) -> Seq<GroupModel> {
    if group_index(gs, service) < gs.len() {
        gs
    } else {
        gs.push(init_model(service))
    }
}

/// The list of groups with one more selection in the group at `i`.
pub open spec fn with_field_group_at(gs: Seq<GroupModel>, i: int, f: FieldSelModel) -> Seq<GroupModel> {
    gs.update(i, with_field(gs[i], f))
}

/// Finds the group for `service`; `groups.len()` when absent.
fn find_group(groups: &Vec<FetchGroup>, service: &String) -> (r: usize)
    ensures
        r as int == group_index(groups_model(groups@), service@),
        r <= groups@.len(),
{
    let ghost gm = groups_model(groups@);
    proof {
        lemma_groups_model(groups@);
    }
    let mut i: usize = 0;
    while i < groups.len()
        invariant
            i <= groups@.len(),
            gm == groups_model(groups@),
            gm.len() == groups@.len(),
            forall|j: int| 0 <= j < groups@.len() ==> gm[j] == (#[trigger] groups@[j]).model(),
            forall|j: int| 0 <= j < i ==> (#[trigger] gm[j]).service != service@,
        decreases groups@.len() - i,
    {
        if groups[i].service_name == *service {
            proof {
                lemma_group_index_found(gm, service@, i as int);
            }
            return i;
        }
        i = i + 1;
    }
    proof {
        lemma_group_index_absent(gm, service@);
    }
    i
}

/// Appends a selection to the fields of the group at `idx`.
fn push_field_into(groups: &mut Vec<FetchGroup>, idx: usize, sel: FieldSel)
    requires
        idx < old(groups)@.len(),
    ensures
        groups_model(final(groups)@) == with_field_group_at(
            groups_model(old(groups)@),
            idx as int,
            sel.model(),
        ),
{
    let ghost gv0 = groups@;
    proof {
        lemma_groups_model(gv0);
    }
    let mut g = groups.remove(idx);
    g.push_field(sel);
    let ghost g_final = g;
    groups.insert(idx, g);
    proof {
        let gv = groups@;
        lemma_groups_model(gv);
        assert(gv =~= gv0.update(idx as int, g_final));
        let expected = with_field_group_at(groups_model(gv0), idx as int, sel.model());
        assert forall|k: int| 0 <= k < gv.len() implies groups_model(gv)[k] == expected[k] by {
            if k != idx as int {
                assert(gv[k] == gv0[k]);
            } else {
                assert(gv[k] == g_final);
            }
        }
        assert(groups_model(gv) =~= expected);
    }
}

pub struct ParallelGroupForField {
    pub groups: Vec<FetchGroup>,
}

impl ParallelGroupForField {
    pub fn new() -> (s: Self)
        ensures
            s.groups@.len() == 0,
    {
        Self { groups: Vec::new() }
    }

    /// Routes a root field to its owning service's group, creating the group
    /// on first sight; composition error when ownership is unknown.
    pub fn group_for_field(&mut self, md: &FederationMetadata, parent_type: &TypeDefinition, field_def: &FieldDef) -> (r: Result<usize, PlanError>)
        requires
            parent_type matches TypeDefinition::Object(_),
        ensures
            ({
                let gs0 = groups_model(old(self).groups@);
                match find_owner(md.model().owners, parent_type.spec_name(), field_def.name@) {
                    Option::Some(svc) => {
                        &&& r matches Result::Ok(i) && i as int == group_index(gs0, svc)
                        &&& groups_model(final(self).groups@) == par_apply(gs0, svc)
                        &&& group_index(gs0, svc) < par_apply(gs0, svc).len()
                    },
                    Option::None => r matches Result::Err(e) && e == PlanError::Composition
                        && groups_model(final(self).groups@) == gs0,
                }
            }),
    {
        let ghost gs0 = groups_model(self.groups@);
        let obj = match parent_type {
            TypeDefinition::Object(o) => o,
            _ => {
                proof {
                    assert(false);
                }
                unreached()
            },
        };
        let service = match md.owning_service(obj, field_def) {
            Result::Ok(s) => s,
            Result::Err(e) => {
                return Result::Err(e);
            },
        };
        let idx = find_group(&self.groups, &service);
        proof {
            lemma_group_index_in_range(gs0, service@);
            lemma_groups_model(self.groups@);
        }
        let ghost svc = service@;
        if idx == self.groups.len() {
            let ghost gv0 = self.groups@;
            self.groups.push(FetchGroup::init(service));
            proof {
                lemma_groups_model(gv0);
                lemma_groups_model(self.groups@);
                assert forall|k: int|
                    0 <= k < self.groups@.len() implies groups_model(self.groups@)[k] == gs0.push(
                    init_model(svc),
                )[k] by {
                    if k < gv0.len() {
                        assert(self.groups@[k] == gv0[k]);
                    } else {
                        assert(self.groups@[k].model() == init_model(svc));
                    }
                }
                assert(groups_model(self.groups@) =~= gs0.push(init_model(svc)));
            }
        }
        Result::Ok(idx)
    }

    /// Appends the field's selection to the group at `idx`.
    pub fn push_field(&mut self, idx: usize, sel: FieldSel)
        requires
            idx < old(self).groups@.len(),
        ensures
            groups_model(final(self).groups@) == with_field_group_at(
                groups_model(old(self).groups@),
                idx as int,
                sel.model(),
            ),
    {
        push_field_into(&mut self.groups, idx, sel);
    }

    /// The groups, in insertion order.
    pub fn into_groups(self) -> (r: Vec<FetchGroup>)
        ensures
            groups_model(r@) == groups_model(self.groups@),
    {
        self.groups
    }
}

// ---------------------------------------------------------------------------
// Root selection, serial: mutation fields keep their order; a field joins
// the last group exactly when that group already fetches from its service.
// ---------------------------------------------------------------------------

/// The serial strategy's effect.
pub open spec fn ser_apply(gs: Seq<GroupModel>, service: Seq<char>) -> Seq<GroupModel> {
    if gs.len() > 0 && gs[gs.len() - 1].service == service {
        gs
    } else {
        gs.push(init_model(service))
    }
}

/// The position the routed field's group has after the serial step.
pub open spec fn ser_index(gs: Seq<GroupModel>, service: Seq<char>) -> int {
    if gs.len() > 0 && gs[gs.len() - 1].service == service {
        gs.len() - 1
    } else {
        gs.len() as int
    }
}

pub struct SerialGroupForField {
    pub groups: Vec<FetchGroup>,
}

impl SerialGroupForField {
    pub fn new() -> (s: Self)
        ensures
            s.groups@.len() == 0,
    {
        Self { groups: Vec::new() }
    }

    /// Routes a mutation root field: reuse the last group when its service
    /// matches, else start a new group after it.
    pub fn group_for_field(&mut self, md: &FederationMetadata, parent_type: &TypeDefinition, field_def: &FieldDef) -> (r: Result<usize, PlanError>)
        requires
            parent_type matches TypeDefinition::Object(_),
        ensures
            ({
                let gs0 = groups_model(old(self).groups@);
                match find_owner(md.model().owners, parent_type.spec_name(), field_def.name@) {
                    Option::Some(svc) => {
                        &&& r matches Result::Ok(i) && i as int == ser_index(gs0, svc)
                        &&& groups_model(final(self).groups@) == ser_apply(gs0, svc)
                        &&& ser_index(gs0, svc) < ser_apply(gs0, svc).len()
                    },
                    Option::None => r matches Result::Err(e) && e == PlanError::Composition
                        && groups_model(final(self).groups@) == gs0,
                }
            }),
    {
        let ghost gs0 = groups_model(self.groups@);
        let obj = match parent_type {
            TypeDefinition::Object(o) => o,
            _ => {
                proof {
                    assert(false);
                }
                unreached()
            },
        };
        let service = match md.owning_service(obj, field_def) {
            Result::Ok(s) => s,
            Result::Err(e) => {
                return Result::Err(e);
            },
        };
        proof {
            lemma_groups_model(self.groups@);
        }
        let n = self.groups.len();
        if n > 0 && self.groups[n - 1].service_name == service {
            Result::Ok(n - 1)
        } else {
            let ghost svc = service@;
            let ghost gv0 = self.groups@;
            self.groups.push(FetchGroup::init(service));
            proof {
                lemma_groups_model(gv0);
                lemma_groups_model(self.groups@);
                assert forall|k: int|
                    0 <= k < self.groups@.len() implies groups_model(self.groups@)[k] == gs0.push(
                    init_model(svc),
                )[k] by {
                    if k < gv0.len() {
                        assert(self.groups@[k] == gv0[k]);
                    } else {
                        assert(self.groups@[k].model() == init_model(svc));
                    }
                }
                assert(groups_model(self.groups@) =~= gs0.push(init_model(svc)));
            }
            Result::Ok(n)
        }
    }

    /// Appends the field's selection to the group at `idx`.
    pub fn push_field(&mut self, idx: usize, sel: FieldSel)
        requires
            idx < old(self).groups@.len(),
        ensures
            groups_model(final(self).groups@) == with_field_group_at(
                groups_model(old(self).groups@),
                idx as int,
                sel.model(),
            ),
    {
        push_field_into(&mut self.groups, idx, sel);
    }

    /// The groups, in the order the mutation fields created them.
    pub fn into_groups(self) -> (r: Vec<FetchGroup>)
        ensures
            groups_model(r@) == groups_model(self.groups@),
    {
        self.groups
    }
}


// ---------------------------------------------------------------------------
// Laws of the plan tree.
// ---------------------------------------------------------------------------

/// `p` is a prefix of `q` (equality included).
pub open spec fn is_path_prefix(p: Seq<Seq<char>>, q: Seq<Seq<char>>) -> bool {
    p.len() <= q.len() && q.take(p.len() as int) == p
}

/// Every selection in `req` also stands in `fields`.
pub open spec fn req_subset(req: Seq<FieldSelModel>, fields: Seq<FieldSelModel>) -> bool {
    forall|j: int| 0 <= j < req.len() ==> fields.contains(#[trigger] req[j])
}

/// Well-formedness of a plan node: every dependent's merge path extends its
/// parent's (and is empty only under an empty parent path), every
/// dependent's required fields are among the fields the parent fetches, and
/// the same holds below.
pub open spec fn group_wf(g: GroupModel) -> bool
    decreases g,
{
    &&& (forall|i: int|
        0 <= i < g.deps.len() ==> is_path_prefix(g.merge_at, (#[trigger] g.deps[i]).group.merge_at))
    &&& (forall|i: int|
        0 <= i < g.deps.len() ==> ((#[trigger] g.deps[i]).group.merge_at.len() == 0 ==> g.merge_at.len()
            == 0))
    &&& (forall|i: int|
        0 <= i < g.deps.len() ==> req_subset((#[trigger] g.deps[i]).group.required_fields, g.fields))
    &&& (forall|i: int| 0 <= i < g.deps.len() ==> group_wf((#[trigger] g.deps[i]).group))
    &&& (forall|i: int|
        0 <= i < g.others.len() ==> is_path_prefix(g.merge_at, (#[trigger] g.others[i]).merge_at))
    &&& (forall|i: int| 0 <= i < g.others.len() ==> group_wf(#[trigger] g.others[i]))
}

pub proof fn lemma_req_subset_extend(req: Seq<FieldSelModel>, fields: Seq<FieldSelModel>, more: Seq<FieldSelModel>)
    requires
        req_subset(req, fields),
    ensures
        req_subset(req, fields + more),
{
    assert forall|j: int| 0 <= j < req.len() implies (fields + more).contains(#[trigger] req[j]) by {
        assert(fields.contains(req[j]));
        let k = choose|k: int| 0 <= k < fields.len() && fields[k] == req[j];
        assert((fields + more)[k] == req[j]);
    }
}

pub proof fn lemma_new_group_wf(service: Seq<char>, merge_at: Seq<Seq<char>>, provided: Seq<Seq<char>>)
    ensures
        group_wf(new_model(service, merge_at, provided)),
        group_wf(init_model(service)),
{
}

/// Pushing a selection into a group's fields preserves well-formedness.
pub proof fn lemma_with_field_wf(g: GroupModel, f: FieldSelModel)
    requires
        group_wf(g),
    ensures
        group_wf(with_field(g, f)),
{
    let r = with_field(g, f);
    assert(r.fields =~= g.fields + seq![f]);
    assert forall|i: int|
        0 <= i < r.deps.len() implies req_subset((#[trigger] r.deps[i]).group.required_fields, r.fields) by {
        lemma_req_subset_extend(g.deps[i].group.required_fields, g.fields, seq![f]);
    }
}

/// Key sufficiency is preserved by adding or reusing a dependent group:
/// whatever the dependent requires, the parent's own fields now carry.
pub proof fn lemma_with_dependent_wf(g: GroupModel, service: Seq<char>, required: Seq<FieldSelModel>)
    requires
        group_wf(g),
    ensures
        group_wf(with_dependent(g, service, required)),
    decreases g,
{
    let r = with_dependent(g, service, required);
    let i = dep_index(g.deps, service);
    lemma_dep_index_in_range(g.deps, service);
    let deps0 = if i < g.deps.len() {
        g.deps
    } else {
        g.deps.push(DepModel { service: service, group: init_model(service) })
    };
    let child0 = deps0[i].group;
    let child = updated_dep_group(child0, g.merge_at, required);
    if i < g.deps.len() {
        assert(group_wf(child0));
        assert(req_subset(child0.required_fields, g.fields));
        assert(child0.merge_at.len() == 0 ==> g.merge_at.len() == 0);
    } else {
        lemma_new_group_wf(service, Seq::empty(), Seq::empty());
        assert(child0 == init_model(service));
    }
    // the child keeps its own dependents and path relations
    if child0.merge_at.len() == 0 {
        assert(child.merge_at == g.merge_at);
        if i < g.deps.len() {
            assert(g.merge_at.len() == 0);
            assert(child.merge_at =~= child0.merge_at);
        }
    } else {
        assert(child.merge_at == child0.merge_at);
    }
    assert(child.deps == child0.deps);
    assert(child.others == child0.others);
    assert(group_wf(child)) by {
        assert forall|k: int|
            0 <= k < child.deps.len() implies is_path_prefix(
            child.merge_at,
            (#[trigger] child.deps[k]).group.merge_at,
        ) && ((child.deps[k]).group.merge_at.len() == 0 ==> child.merge_at.len() == 0) && req_subset(
            (child.deps[k]).group.required_fields,
            child.fields,
        ) && group_wf((child.deps[k]).group) by {
            assert(child.deps[k] == child0.deps[k]);
        }
        assert forall|k: int|
            0 <= k < child.others.len() implies is_path_prefix(
            child.merge_at,
            (#[trigger] child.others[k]).merge_at,
        ) && group_wf(child.others[k]) by {
            assert(child.others[k] == child0.others[k]);
        }
    }
    // required fields of the child are among the parent's new fields
    assert(req_subset(child.required_fields, r.fields)) by {
        if required.len() > 0 {
            assert(r.fields == g.fields + required);
            if i < g.deps.len() {
                lemma_req_subset_extend(child0.required_fields, g.fields, required);
            }
            assert forall|j: int|
                0 <= j < child.required_fields.len() implies r.fields.contains(
                #[trigger] child.required_fields[j],
            ) by {
                if j < child0.required_fields.len() {
                    assert(child.required_fields[j] == child0.required_fields[j]);
                } else {
                    let d = j - child0.required_fields.len();
                    assert(child.required_fields[j] == required[d]);
                    assert(r.fields[g.fields.len() + d] == required[d]);
                }
            }
        } else {
            assert(child.required_fields == child0.required_fields);
            if i < g.deps.len() {
                assert(r.fields == g.fields);
            }
        }
    }
    // every other dependent keeps its relations against the grown fields
    assert forall|k: int|
        0 <= k < r.deps.len() implies is_path_prefix(r.merge_at, (#[trigger] r.deps[k]).group.merge_at)
        && ((r.deps[k]).group.merge_at.len() == 0 ==> r.merge_at.len() == 0) && req_subset(
        (r.deps[k]).group.required_fields,
        r.fields,
    ) && group_wf((r.deps[k]).group) by {
        if k == i {
            assert(r.deps[k].group == child);
            assert(is_path_prefix(r.merge_at, child.merge_at)) by {
                if child0.merge_at.len() == 0 {
                    assert(child.merge_at == g.merge_at);
                    assert(g.merge_at.take(g.merge_at.len() as int) =~= g.merge_at);
                }
            }
        } else if k < g.deps.len() {
            assert(r.deps[k] == g.deps[k]);
            if required.len() > 0 {
                lemma_req_subset_extend(g.deps[k].group.required_fields, g.fields, required);
            }
        }
    }
}

/// Well-formedness through the entity round-trip chain: a dependent on the
/// base service is created or reused, and inside it a dependent on the
/// owning service.
pub proof fn lemma_with_chained_wf(
    g: GroupModel,
    base: Seq<char>,
    keys: Seq<FieldSelModel>,
    owning: Seq<char>,
    required: Seq<FieldSelModel>,
)
    requires
        group_wf(g),
    ensures
        group_wf(with_chained(g, base, keys, owning, required)),
{
    let g1 = with_dependent(g, base, keys);
    lemma_with_dependent_wf(g, base, keys);
    let i = dep_index(g.deps, base);
    lemma_dep_index_in_range(g.deps, base);
    let child1 = g1.deps[i].group;
    assert(group_wf(child1));
    let child2 = with_dependent(child1, owning, required);
    lemma_with_dependent_wf(child1, owning, required);
    let r = with_chained(g, base, keys, owning, required);
    assert(child2.required_fields == child1.required_fields);
    assert(child2.merge_at == child1.merge_at);
    assert forall|k: int|
        0 <= k < r.deps.len() implies is_path_prefix(r.merge_at, (#[trigger] r.deps[k]).group.merge_at)
        && ((r.deps[k]).group.merge_at.len() == 0 ==> r.merge_at.len() == 0) && req_subset(
        (r.deps[k]).group.required_fields,
        r.fields,
    ) && group_wf((r.deps[k]).group) by {
        if k == i {
            assert(r.deps[k].group == child2);
            assert(is_path_prefix(g1.merge_at, child1.merge_at));
        } else {
            assert(r.deps[k] == g1.deps[k]);
        }
    }
}

/// Key sufficiency: for every dependent group of a well-formed group, its
/// required fields are among the fields its parent fetches.
pub proof fn lemma_key_sufficiency(g: GroupModel)
    requires
        group_wf(g),
    ensures
        forall|i: int|
            0 <= i < g.deps.len() ==> req_subset((#[trigger] g.deps[i]).group.required_fields, g.fields),
{
}

/// Path coherence: every dependent group's merge path is a prefix extension
/// of its parent's (equal for a same-path entity round-trip).
pub proof fn lemma_path_coherence(g: GroupModel)
    requires
        group_wf(g),
    ensures
        forall|i: int|
            0 <= i < g.deps.len() ==> is_path_prefix(g.merge_at, (#[trigger] g.deps[i]).group.merge_at),
        forall|i: int| 0 <= i < g.others.len() ==> is_path_prefix(g.merge_at, (#[trigger] g.others[i]).merge_at),
{
}

/// Value-type transparency: a field on a value type never leaves its parent
/// group, so no dependent fetch is introduced to traverse a value type.
pub proof fn lemma_value_type_transparency(md: MdModel, pg: GroupModel, parent: Seq<char>, fname: Seq<char>)
    requires
        md.value_types.contains(parent),
    ensures
        sub_route(md, pg, parent, fname) == RoutePlan::Parent,
{
}

/// Service purity: a routed sub-field crosses into a dependent group only
/// for the service that owns the field, through the base service where the
/// chain demands it; it stays in its parent group only for `__typename`,
/// for a field the parent's service itself owns, or for a field the parent
/// already provides (directly, or through its `@requires`).
pub proof fn lemma_service_purity(md: MdModel, pg: GroupModel, parent: Seq<char>, fname: Seq<char>)
    ensures
        (sub_route(md, pg, parent, fname) matches RoutePlan::Dep { service, .. } ==> Option::Some(service)
            == owning_of(md, pg, parent, fname)),
        (sub_route(md, pg, parent, fname) matches RoutePlan::Chain { base, owning, .. }
            ==> Option::Some(owning) == owning_of(md, pg, parent, fname) && Option::Some(base) == base_of(
            md,
            pg,
            parent,
        )),
        (sub_route(md, pg, parent, fname) == RoutePlan::Parent ==> fname == typename_name()
            || owning_of(md, pg, parent, fname) == Option::Some(pg.service) || pg.provided_fields.contains(
            fname,
        ) || (owning_of(md, pg, parent, fname) matches Option::Some(o) && all_in_provided(
            required_spec(md, parent, fname, o),
            pg.provided_fields,
        ))),
{
}

/// Ordering stability: routing and group construction are pure functions of
/// the metadata, the groups and the field, so two identical operations
/// against the same schema produce identical plan structures, sibling order
/// included.  The executable operations' contracts pin their results to
/// exactly these functions.
pub proof fn lemma_ordering_stability(
    md1: MdModel,
    md2: MdModel,
    pg1: GroupModel,
    pg2: GroupModel,
    parent: Seq<char>,
    fname: Seq<char>,
    gs1: Seq<GroupModel>,
    gs2: Seq<GroupModel>,
    service: Seq<char>,
)
    requires
        md1 == md2,
        pg1 == pg2,
        gs1 == gs2,
    ensures
        sub_route(md1, pg1, parent, fname) == sub_route(md2, pg2, parent, fname),
        par_apply(gs1, service) == par_apply(gs2, service),
        ser_apply(gs1, service) == ser_apply(gs2, service),
{
}

} // verus!
