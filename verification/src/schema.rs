use vstd::prelude::*;

verus! {

// ---------------------------------------------------------------------------
// Composed-schema type definitions, reduced to what planning reads: type
// names, interface implementations, union memberships and field names.
// ---------------------------------------------------------------------------

#[verifier::ext_equal]
pub struct FieldDef {
    pub name: String,
    pub field_type: String,
}

#[verifier::ext_equal]
pub struct FieldDefModel {
    pub name: Seq<char>,
    pub field_type: Seq<char>,
}

impl FieldDef {
    pub open spec fn model(self) -> FieldDefModel {
        FieldDefModel { name: self.name@, field_type: self.field_type@ }
    }

    pub fn duplicate(&self) -> (r: FieldDef)
        ensures
            r.model() == self.model(),
    {
        FieldDef { name: self.name.clone(), field_type: self.field_type.clone() }
    }
}

pub open spec fn field_defs_model(s: Seq<FieldDef>) -> Seq<FieldDefModel> {
    Seq::new(s.len(), |i: int| s[i].model())
}

pub open spec fn strs_model(s: Seq<String>) -> Seq<Seq<char>> {
    Seq::new(s.len(), |i: int| s[i]@)
}

#[verifier::ext_equal]
pub struct ObjectType {
    pub name: String,
    pub implements_interfaces: Vec<String>,
    pub fields: Vec<FieldDef>,
}

#[verifier::ext_equal]
pub struct InterfaceType {
    pub name: String,
    pub implements_interfaces: Vec<String>,
    pub fields: Vec<FieldDef>,
}

#[verifier::ext_equal]
pub struct UnionType {
    pub name: String,
    pub types: Vec<String>,
}

#[verifier::ext_equal]
pub enum TypeDefinition {
    Object(ObjectType),
    Interface(InterfaceType),
    Union(UnionType),
    Scalar(String),
    Enum(String),
    InputObject(String),
}

#[verifier::ext_equal]
pub enum TypeDefModel {
    Object { name: Seq<char>, interfaces: Seq<Seq<char>>, fields: Seq<FieldDefModel> },
    Interface { name: Seq<char>, interfaces: Seq<Seq<char>>, fields: Seq<FieldDefModel> },
    Union { name: Seq<char>, members: Seq<Seq<char>> },
    Scalar { name: Seq<char> },
    Enum { name: Seq<char> },
    InputObject { name: Seq<char> },
}

impl TypeDefinition {
    pub open spec fn model(self) -> TypeDefModel {
        match self {
            TypeDefinition::Object(o) => TypeDefModel::Object {
                name: o.name@,
                interfaces: strs_model(o.implements_interfaces@),
                fields: field_defs_model(o.fields@),
            },
            TypeDefinition::Interface(o) => TypeDefModel::Interface {
                name: o.name@,
                interfaces: strs_model(o.implements_interfaces@),
                fields: field_defs_model(o.fields@),
            },
            TypeDefinition::Union(u) => TypeDefModel::Union { name: u.name@, members: strs_model(u.types@) },
            TypeDefinition::Scalar(n) => TypeDefModel::Scalar { name: n@ },
            TypeDefinition::Enum(n) => TypeDefModel::Enum { name: n@ },
            TypeDefinition::InputObject(n) => TypeDefModel::InputObject { name: n@ },
        }
    }

    /// The name under which the definition is registered.
    pub open spec fn spec_name(self) -> Seq<char> {
        match self {
            TypeDefinition::Object(o) => o.name@,
            TypeDefinition::Interface(o) => o.name@,
            TypeDefinition::Union(u) => u.name@,
            TypeDefinition::Scalar(n) => n@,
            TypeDefinition::Enum(n) => n@,
            TypeDefinition::InputObject(n) => n@,
        }
    }

    pub fn as_name(&self) -> (r: &String)
        ensures
            r@ == self.spec_name(),
    {
        match self {
            TypeDefinition::Object(o) => &o.name,
            TypeDefinition::Interface(o) => &o.name,
            TypeDefinition::Union(u) => &u.name,
            TypeDefinition::Scalar(n) => n,
            TypeDefinition::Enum(n) => n,
            TypeDefinition::InputObject(n) => n,
        }
    }

    pub fn duplicate(&self) -> (r: TypeDefinition)
        ensures
            r.model() == self.model(),
    {
        let r = match self {
            TypeDefinition::Object(o) => TypeDefinition::Object(ObjectType {
                name: o.name.clone(),
                implements_interfaces: crate::ast::duplicate_strings(&o.implements_interfaces),
                fields: duplicate_field_defs(&o.fields),
            }),
            TypeDefinition::Interface(o) => TypeDefinition::Interface(InterfaceType {
                name: o.name.clone(),
                implements_interfaces: crate::ast::duplicate_strings(&o.implements_interfaces),
                fields: duplicate_field_defs(&o.fields),
            }),
            TypeDefinition::Union(u) => TypeDefinition::Union(UnionType {
                name: u.name.clone(),
                types: crate::ast::duplicate_strings(&u.types),
            }),
            TypeDefinition::Scalar(n) => TypeDefinition::Scalar(n.clone()),
            TypeDefinition::Enum(n) => TypeDefinition::Enum(n.clone()),
            TypeDefinition::InputObject(n) => TypeDefinition::InputObject(n.clone()),
        };
        proof {
            assert(r.model() =~~= self.model());
        }
        r
    }
}

pub fn duplicate_field_defs(v: &Vec<FieldDef>) -> (r: Vec<FieldDef>)
    ensures
        field_defs_model(r@) == field_defs_model(v@),
{
    let mut r: Vec<FieldDef> = Vec::new();
    let mut i: usize = 0;
    while i < v.len()
        invariant
            i <= v@.len(),
            r@.len() == i,
            field_defs_model(r@) =~= field_defs_model(v@.take(i as int)),
        decreases v@.len() - i,
    {
        let ghost prev = r@;
        r.push(v[i].duplicate());
        proof {
            assert forall|j: int| 0 <= j < i as int + 1 implies field_defs_model(r@)[j] == field_defs_model(
                v@.take(i as int + 1),
            )[j] by {
                assert(v@.take(i as int + 1)[j] == v@[j]);
                if j < i as int {
                    assert(r@[j] == prev[j]);
                    assert(field_defs_model(prev)[j] == field_defs_model(v@.take(i as int))[j]);
                    assert(v@.take(i as int)[j] == v@[j]);
                } else {
                    assert(r@[j] == r@[i as int]);
                }
            }
            assert(field_defs_model(r@) =~= field_defs_model(v@.take(i as int + 1)));
        }
        i = i + 1;
    }
    proof {
        assert(v@.take(v@.len() as int) =~= v@);
        assert(field_defs_model(r@) =~= field_defs_model(v@));
    }
    r
}

// ---------------------------------------------------------------------------
// Schema documents: the type definitions among arbitrary other definitions
// (directives, schema declarations), which planning skips.
// ---------------------------------------------------------------------------

#[verifier::ext_equal]
pub enum SchemaDefinition {
    Type(TypeDefinition),
    Other,
}

#[verifier::ext_equal]
pub struct SchemaDocument {
    pub definitions: Vec<SchemaDefinition>,
}

pub open spec fn schema_defs_model(s: Seq<SchemaDefinition>) -> Seq<Option<TypeDefModel>> {
    Seq::new(
        s.len(),
        |i: int| match s[i] {
            SchemaDefinition::Type(t) => Option::Some(t.model()),
            SchemaDefinition::Other => Option::None,
        },
    )
}

} // verus!
