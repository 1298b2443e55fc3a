use vstd::prelude::*;
use crate::ast::{FieldSel, FieldSelModel, field_sels_model, duplicate_field_sels, typename_field_sel, make_typename_field_sel};
use crate::schema::{FieldDef, ObjectType, TypeDefinition};

verus! {

// ---------------------------------------------------------------------------
// Errors.  Planning aborts with a composition error when the metadata cannot
// answer an ownership, base-service or key question; an invariant error marks
// states the traversal is not supposed to reach; unsupported selections are
// reported without aborting.
// ---------------------------------------------------------------------------

#[derive(Clone, Copy, Debug, PartialEq, Eq, Structural)]
pub enum PlanError {
    Composition,
    Invariant,
    Unsupported,
}

// ---------------------------------------------------------------------------
// Federation metadata: the composed schema's ownership directives, resolved
// by the composition collaborator into lookup tables.  All operations are
// pure functions of the tables.
// ---------------------------------------------------------------------------

#[verifier::ext_equal]
pub struct FieldOwner {
    pub on_type: String,
    pub field_name: String,
    pub service: String,
}

#[verifier::ext_equal]
pub struct OwnerModel {
    pub on_type: Seq<char>,
    pub field_name: Seq<char>,
    pub service: Seq<char>,
}

impl FieldOwner {
    pub open spec fn model(self) -> OwnerModel {
        OwnerModel { on_type: self.on_type@, field_name: self.field_name@, service: self.service@ }
    }
}

#[verifier::ext_equal]
pub struct TypeBase {
    pub on_type: String,
    pub service: String,
}

#[verifier::ext_equal]
pub struct BaseModel {
    pub on_type: Seq<char>,
    pub service: Seq<char>,
}

impl TypeBase {
    pub open spec fn model(self) -> BaseModel {
        BaseModel { on_type: self.on_type@, service: self.service@ }
    }
}

#[verifier::ext_equal]
pub struct KeyEntry {
    pub on_type: String,
    pub service: String,
    pub key: Vec<FieldSel>,
}

#[verifier::ext_equal]
pub struct KeyModel {
    pub on_type: Seq<char>,
    pub service: Seq<char>,
    pub key: Seq<FieldSelModel>,
}

impl KeyEntry {
    pub open spec fn model(self) -> KeyModel {
        KeyModel { on_type: self.on_type@, service: self.service@, key: field_sels_model(self.key@) }
    }
}

#[verifier::ext_equal]
pub struct RequiresEntry {
    pub on_type: String,
    pub field_name: String,
    pub service: String,
    pub required: Vec<FieldSel>,
}

#[verifier::ext_equal]
pub struct RequiresModel {
    pub on_type: Seq<char>,
    pub field_name: Seq<char>,
    pub service: Seq<char>,
    pub required: Seq<FieldSelModel>,
}

impl RequiresEntry {
    pub open spec fn model(self) -> RequiresModel {
        RequiresModel {
            on_type: self.on_type@,
            field_name: self.field_name@,
            service: self.service@,
            required: field_sels_model(self.required@),
        }
    }
}

#[verifier::ext_equal]
pub struct FederationMetadata {
    pub owners: Vec<FieldOwner>,
    pub bases: Vec<TypeBase>,
    pub value_types: Vec<String>,
    pub keys: Vec<KeyEntry>,
    pub requires: Vec<RequiresEntry>,
}

#[verifier::ext_equal]
pub struct MdModel {
    pub owners: Seq<OwnerModel>,
    pub bases: Seq<BaseModel>,
    pub value_types: Seq<Seq<char>>,
    pub keys: Seq<KeyModel>,
    pub requires: Seq<RequiresModel>,
}

// ---------------------------------------------------------------------------
// First-match lookups over the tables.
// ---------------------------------------------------------------------------

pub open spec fn find_owner(s: Seq<OwnerModel>, t: Seq<char>, f: Seq<char>) -> Option<Seq<char>>
    decreases s.len(),
{
    if s.len() == 0 {
        Option::None
    } else if s[0].on_type == t && s[0].field_name == f {
        Option::Some(s[0].service)
    } else {
        find_owner(s.drop_first(), t, f)
    }
}

pub open spec fn find_base(s: Seq<BaseModel>, t: Seq<char>) -> Option<Seq<char>>
    decreases s.len(),
{
    if s.len() == 0 {
        Option::None
    } else if s[0].on_type == t {
        Option::Some(s[0].service)
    } else {
        find_base(s.drop_first(), t)
    }
}

pub open spec fn find_key(s: Seq<KeyModel>, t: Seq<char>, service: Seq<char>) -> Option<Seq<FieldSelModel>>
    decreases s.len(),
{
    if s.len() == 0 {
        Option::None
    } else if s[0].on_type == t && s[0].service == service {
        Option::Some(s[0].key)
    } else {
        find_key(s.drop_first(), t, service)
    }
}

pub open spec fn find_requires(
    s: Seq<RequiresModel>,
    t: Seq<char>,
    f: Seq<char>,
    service: Seq<char>,
) -> Option<Seq<FieldSelModel>>
    decreases s.len(),
{
    if s.len() == 0 {
        Option::None
    } else if s[0].on_type == t && s[0].field_name == f && s[0].service == service {
        Option::Some(s[0].required)
    } else {
        find_requires(s.drop_first(), t, f, service)
    }
}

// ---------------------------------------------------------------------------
// The metadata's answers, each pinned to the spec-level lookup of its table.
// ---------------------------------------------------------------------------

impl FederationMetadata {
    pub open spec fn model(self) -> MdModel {
        MdModel {
            owners: Seq::new(self.owners@.len(), |i: int| self.owners@[i].model()),
            bases: Seq::new(self.bases@.len(), |i: int| self.bases@[i].model()),
            value_types: Seq::new(self.value_types@.len(), |i: int| self.value_types@[i]@),
            keys: Seq::new(self.keys@.len(), |i: int| self.keys@[i].model()),
            requires: Seq::new(self.requires@.len(), |i: int| self.requires@[i].model()),
        }
    }

    /// The subgraph that defines `field_def` on the concrete object type
    /// `obj`; a composition error when the tables do not answer.
    pub fn owning_service(&self, obj: &ObjectType, field_def: &FieldDef) -> (r: Result<String, PlanError>)
        ensures
            match find_owner(self.model().owners, obj.name@, field_def.name@) {
                Option::Some(s) => r matches Result::Ok(v) && v@ == s,
                Option::None => r matches Result::Err(e) && e == PlanError::Composition,
            },
    {
        let ghost tbl = self.model().owners;
        proof {
            assert(tbl.skip(0) =~= tbl);
        }
        let mut i: usize = 0;
        while i < self.owners.len()
            invariant
                i <= self.owners@.len(),
                tbl == self.model().owners,
                tbl.len() == self.owners@.len(),
                forall|j: int| 0 <= j < tbl.len() ==> tbl[j] == #[trigger] self.owners@[j].model(),
                find_owner(tbl, obj.name@, field_def.name@) == find_owner(
                    tbl.skip(i as int),
                    obj.name@,
                    field_def.name@,
                ),
            decreases self.owners@.len() - i,
        {
            let e = &self.owners[i];
            proof {
                assert(tbl[i as int] == self.owners@[i as int].model());
                assert(tbl.skip(i as int)[0] == tbl[i as int]);
            }
            if e.on_type == obj.name && e.field_name == field_def.name {
                return Result::Ok(e.service.clone());
            }
            proof {
                assert(tbl.skip(i as int).drop_first() =~= tbl.skip(i as int + 1));
            }
            i = i + 1;
        }
        proof {
            assert(tbl.skip(tbl.len() as int).len() == 0);
        }
        Result::Err(PlanError::Composition)
    }

    /// The subgraph that originally declared the object type, as opposed to
    /// extending it.
    pub fn base_service(&self, obj: &ObjectType) -> (r: Result<String, PlanError>)
        ensures
            match find_base(self.model().bases, obj.name@) {
                Option::Some(s) => r matches Result::Ok(v) && v@ == s,
                Option::None => r matches Result::Err(e) && e == PlanError::Composition,
            },
    {
        let ghost tbl = self.model().bases;
        proof {
            assert(tbl.skip(0) =~= tbl);
        }
        let mut i: usize = 0;
        while i < self.bases.len()
            invariant
                i <= self.bases@.len(),
                tbl == self.model().bases,
                tbl.len() == self.bases@.len(),
                forall|j: int| 0 <= j < tbl.len() ==> tbl[j] == #[trigger] self.bases@[j].model(),
                find_base(tbl, obj.name@) == find_base(tbl.skip(i as int), obj.name@),
            decreases self.bases@.len() - i,
        {
            let e = &self.bases[i];
            proof {
                assert(tbl[i as int] == self.bases@[i as int].model());
                assert(tbl.skip(i as int)[0] == tbl[i as int]);
            }
            if e.on_type == obj.name {
                return Result::Ok(e.service.clone());
            }
            proof {
                assert(tbl.skip(i as int).drop_first() =~= tbl.skip(i as int + 1));
            }
            i = i + 1;
        }
        proof {
            assert(tbl.skip(tbl.len() as int).len() == 0);
        }
        Result::Err(PlanError::Composition)
    }

    /// Whether the type is declared identically across services and is not
    /// an entity; such a type is served wherever its parent is.
    pub fn is_value_type(&self, t: &TypeDefinition) -> (r: bool)
        ensures
            r == self.model().value_types.contains(t.spec_name()),
    {
        let ghost tbl = self.model().value_types;
        let name = t.as_name();
        let mut i: usize = 0;
        while i < self.value_types.len()
            invariant
                i <= self.value_types@.len(),
                tbl == self.model().value_types,
                tbl.len() == self.value_types@.len(),
                forall|j: int| 0 <= j < tbl.len() ==> tbl[j] == #[trigger] self.value_types@[j]@,
                forall|j: int| 0 <= j < i ==> tbl[j] != t.spec_name(),
                name@ == t.spec_name(),
            decreases self.value_types@.len() - i,
        {
            proof {
                assert(tbl[i as int] == self.value_types@[i as int]@);
            }
            if self.value_types[i] == *name {
                proof {
                    assert(tbl[i as int] == t.spec_name());
                    assert(tbl.contains(t.spec_name()));
                }
                return true;
            }
            proof {
                assert(!(self.value_types@[i as int]@ == name@));
                assert(name@ == t.spec_name());
                assert(tbl[i as int] != t.spec_name());
            }
            i = i + 1;
        }
        proof {
            assert forall|j: int| 0 <= j < tbl.len() implies tbl[j] != t.spec_name() by {}
        }
        false
    }

    /// The fields identifying an entity of `parent_type` when crossing into
    /// `service`; a selection of `__typename` alone when no key applies.
    pub fn key_fields(&self, parent_type: &TypeDefinition, service: &String) -> (r: Vec<FieldSel>)
        ensures
            match find_key(self.model().keys, parent_type.spec_name(), service@) {
                Option::Some(k) => field_sels_model(r@) == k,
                Option::None => field_sels_model(r@) == seq![typename_field_sel(parent_type.spec_name())],
            },
    {
        let ghost tbl = self.model().keys;
        proof {
            assert(tbl.skip(0) =~= tbl);
        }
        let name = parent_type.as_name();
        let mut i: usize = 0;
        while i < self.keys.len()
            invariant
                i <= self.keys@.len(),
                tbl == self.model().keys,
                tbl.len() == self.keys@.len(),
                forall|j: int| 0 <= j < tbl.len() ==> tbl[j] == #[trigger] self.keys@[j].model(),
                name@ == parent_type.spec_name(),
                find_key(tbl, parent_type.spec_name(), service@) == find_key(
                    tbl.skip(i as int),
                    parent_type.spec_name(),
                    service@,
                ),
            decreases self.keys@.len() - i,
        {
            let e = &self.keys[i];
            proof {
                assert(tbl[i as int] == self.keys@[i as int].model());
                assert(tbl.skip(i as int)[0] == tbl[i as int]);
            }
            if e.on_type == *name && e.service == *service {
                proof {
                    assert(find_key(tbl.skip(i as int), parent_type.spec_name(), service@)
                        == Option::Some(tbl[i as int].key));
                }
                return duplicate_field_sels(&e.key);
            }
            proof {
                assert(tbl.skip(i as int).drop_first() =~= tbl.skip(i as int + 1));
            }
            i = i + 1;
        }
        proof {
            assert(tbl.skip(tbl.len() as int).len() == 0);
        }
        let mut r: Vec<FieldSel> = Vec::new();
        r.push(make_typename_field_sel(name));
        proof {
            assert(field_sels_model(r@) =~= seq![typename_field_sel(parent_type.spec_name())]);
        }
        r
    }

    /// The selections that must stand on the entity representation before
    /// `service` can resolve `field_def`: the key and `@requires` inputs, as
    /// the composition resolved them; empty when the table has no entry.
    pub fn required_fields(&self, parent_type: &TypeDefinition, field_def: &FieldDef, service: &String) -> (r:
        Vec<FieldSel>)
        ensures
            match find_requires(self.model().requires, parent_type.spec_name(), field_def.name@, service@) {
                Option::Some(q) => field_sels_model(r@) == q,
                Option::None => field_sels_model(r@) == Seq::<FieldSelModel>::empty(),
            },
    {
        let ghost tbl = self.model().requires;
        proof {
            assert(tbl.skip(0) =~= tbl);
        }
        let name = parent_type.as_name();
        let mut i: usize = 0;
        while i < self.requires.len()
            invariant
                i <= self.requires@.len(),
                tbl == self.model().requires,
                tbl.len() == self.requires@.len(),
                forall|j: int| 0 <= j < tbl.len() ==> tbl[j] == #[trigger] self.requires@[j].model(),
                name@ == parent_type.spec_name(),
                find_requires(tbl, parent_type.spec_name(), field_def.name@, service@) == find_requires(
                    tbl.skip(i as int),
                    parent_type.spec_name(),
                    field_def.name@,
                    service@,
                ),
            decreases self.requires@.len() - i,
        {
            let e = &self.requires[i];
            proof {
                assert(tbl[i as int] == self.requires@[i as int].model());
                assert(tbl.skip(i as int)[0] == tbl[i as int]);
            }
            if e.on_type == *name && e.field_name == field_def.name && e.service == *service {
                proof {
                    assert(find_requires(tbl.skip(i as int), parent_type.spec_name(), field_def.name@, service@)
                        == Option::Some(tbl[i as int].required));
                }
                return duplicate_field_sels(&e.required);
            }
            proof {
                assert(tbl.skip(i as int).drop_first() =~= tbl.skip(i as int + 1));
            }
            i = i + 1;
        }
        proof {
            assert(tbl.skip(tbl.len() as int).len() == 0);
        }
        let r: Vec<FieldSel> = Vec::new();
        proof {
            assert(field_sels_model(r@) =~= Seq::<FieldSelModel>::empty());
        }
        r
    }
}

} // verus!
