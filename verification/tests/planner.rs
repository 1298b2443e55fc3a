use query_planner::ast::{Field, FieldSel, Selection};
use query_planner::groups::{
    FetchGroup, GroupForSubField, GroupTarget, ParallelGroupForField, SerialGroupForField,
};
use query_planner::helpers::{
    build_possible_types, get_operations, is_introspection_type, is_not_introspection_field,
    names_to_types, type_by_name, variable_name_to_def, Definition, Document, Head, Op, Operation,
    OperationDef, VariableDef,
};
use query_planner::merge::{group_by, merge_field_selection_sets, merge_selection_sets};
use query_planner::splitter::{prune_empty_groups, split_root_fields};
use query_planner::metadata::{
    FederationMetadata, FieldOwner, KeyEntry, PlanError, RequiresEntry, TypeBase,
};
use query_planner::schema::{
    FieldDef, InterfaceType, ObjectType, SchemaDefinition, SchemaDocument, TypeDefinition, UnionType,
};

fn field(name: &str, sub: Vec<Selection>) -> Selection {
    Selection::Field(Field { alias: None, name: name.to_string(), selection_set: sub })
}

fn leaf(name: &str) -> Selection {
    field(name, vec![])
}

fn aliased(alias: &str, name: &str) -> Selection {
    Selection::Field(Field {
        alias: Some(alias.to_string()),
        name: name.to_string(),
        selection_set: vec![],
    })
}

fn fsel(parent: &str, name: &str, sub: Vec<Selection>) -> FieldSel {
    FieldSel {
        parent_type: parent.to_string(),
        def_name: name.to_string(),
        node: Field { alias: None, name: name.to_string(), selection_set: sub },
    }
}

fn fdef(name: &str) -> FieldDef {
    FieldDef { name: name.to_string(), field_type: String::new() }
}

fn object(name: &str, ifaces: &[&str], fields: &[&str]) -> TypeDefinition {
    TypeDefinition::Object(ObjectType {
        name: name.to_string(),
        implements_interfaces: ifaces.iter().map(|s| s.to_string()).collect(),
        fields: fields.iter().map(|f| fdef(f)).collect(),
    })
}

fn interface(name: &str, ifaces: &[&str]) -> TypeDefinition {
    TypeDefinition::Interface(InterfaceType {
        name: name.to_string(),
        implements_interfaces: ifaces.iter().map(|s| s.to_string()).collect(),
        fields: vec![],
    })
}

fn owner(t: &str, f: &str, s: &str) -> FieldOwner {
    FieldOwner { on_type: t.to_string(), field_name: f.to_string(), service: s.to_string() }
}

fn base(t: &str, s: &str) -> TypeBase {
    TypeBase { on_type: t.to_string(), service: s.to_string() }
}

fn key(t: &str, s: &str, k: Vec<FieldSel>) -> KeyEntry {
    KeyEntry { on_type: t.to_string(), service: s.to_string(), key: k }
}

fn requires_entry(t: &str, f: &str, s: &str, req: Vec<FieldSel>) -> RequiresEntry {
    RequiresEntry {
        on_type: t.to_string(),
        field_name: f.to_string(),
        service: s.to_string(),
        required: req,
    }
}

fn empty_md() -> FederationMetadata {
    FederationMetadata {
        owners: vec![],
        bases: vec![],
        value_types: vec![],
        keys: vec![],
        requires: vec![],
    }
}

fn field_names(fields: &[FieldSel]) -> Vec<String> {
    fields.iter().map(|f| f.def_name.clone()).collect()
}

fn sel_name(s: &Selection) -> String {
    match s {
        Selection::Field(f) => f.name.clone(),
        Selection::FragmentSpread(n) => n.clone(),
        Selection::InlineFragment(_) => "...".to_string(),
    }
}

// a single-service query stays in one parallel group with no dependents.
#[test]
fn single_service_query() {
    let md = FederationMetadata {
        owners: vec![
            owner("Query", "me", "accounts"),
            owner("User", "id", "accounts"),
            owner("User", "name", "accounts"),
        ],
        bases: vec![base("Query", "accounts"), base("User", "accounts")],
        value_types: vec![],
        keys: vec![key("User", "accounts", vec![fsel("User", "id", vec![])])],
        requires: vec![],
    };
    let query_type = object("Query", &[], &["me"]);
    let mut sel = ParallelGroupForField::new();
    let idx = sel.group_for_field(&md, &query_type, &fdef("me")).unwrap();
    assert_eq!(idx, 0);
    sel.push_field(idx, fsel("Query", "me", vec![leaf("id"), leaf("name")]));

    // sub pass on User: both fields stay in the parent group
    let mut groups = sel.into_groups();
    assert_eq!(groups.len(), 1);
    let root = groups.remove(0);
    assert_eq!(root.service_name, "accounts");

    let user = object("User", &[], &["id", "name"]);
    let mut sub = GroupForSubField::new(root);
    let t1 = sub.group_for_field(&md, &user, &fdef("id")).unwrap();
    assert_eq!(t1, GroupTarget::Parent);
    let t2 = sub.group_for_field(&md, &user, &fdef("name")).unwrap();
    assert_eq!(t2, GroupTarget::Parent);
    let groups = sub.into_groups();
    assert_eq!(groups.len(), 1);
    assert_eq!(groups[0].dependent_groups_by_service.len(), 0);

    let merged = merge_selection_sets(groups[0].fields.clone_for_test());
    let names: Vec<String> = merged.iter().map(sel_name).collect();
    assert_eq!(names, vec!["id".to_string(), "name".to_string()]);
}

// a field owned by another service crosses into a dependent group that
// carries the entity key, which the parent now also fetches.
#[test]
fn two_service_join() {
    let md = FederationMetadata {
        owners: vec![
            owner("User", "name", "accounts"),
            owner("User", "id", "accounts"),
            owner("User", "reviews", "reviews"),
        ],
        bases: vec![base("User", "accounts")],
        value_types: vec![],
        keys: vec![
            key("User", "accounts", vec![fsel("User", "id", vec![])]),
            key("User", "reviews", vec![fsel("User", "id", vec![])]),
        ],
        requires: vec![requires_entry("User", "reviews", "reviews", vec![fsel("User", "id", vec![])])],
    };
    let user = object("User", &[], &["id", "name", "reviews"]);
    let mut parent = FetchGroup::init("accounts".to_string());
    parent.merge_at.push("me".to_string());
    let mut sub = GroupForSubField::new(parent);

    let t_name = sub.group_for_field(&md, &user, &fdef("name")).unwrap();
    assert_eq!(t_name, GroupTarget::Parent);
    sub.push_field(t_name, fsel("User", "name", vec![]));

    let t_reviews = sub.group_for_field(&md, &user, &fdef("reviews")).unwrap();
    assert_eq!(t_reviews, GroupTarget::Dependent(0));
    sub.push_field(t_reviews, fsel("User", "reviews", vec![leaf("body")]));

    let mut groups = sub.into_groups();
    let root = groups.remove(0);
    // the parent now fetches the key it must hand over
    assert_eq!(field_names(&root.fields), vec!["name".to_string(), "id".to_string()]);
    assert_eq!(root.dependent_groups_by_service.len(), 1);
    let dep = &root.dependent_groups_by_service[0];
    assert_eq!(dep.service, "reviews");
    assert_eq!(dep.group.service_name, "reviews");
    assert_eq!(dep.group.merge_at, vec!["me".to_string()]);
    assert_eq!(field_names(&dep.group.required_fields), vec!["id".to_string()]);
    assert_eq!(field_names(&dep.group.fields), vec!["reviews".to_string()]);
}

// fields reachable through `@provides` stay in the parent group; no
// dependent fetch is introduced.
#[test]
fn provides_short_circuit() {
    let md = FederationMetadata {
        owners: vec![owner("User", "name", "accounts")],
        bases: vec![base("User", "accounts")],
        value_types: vec![],
        keys: vec![],
        requires: vec![],
    };
    let user = object("User", &[], &["name"]);
    let mut parent = FetchGroup::new(
        "reviews".to_string(),
        vec!["topReviews".to_string(), "@".to_string(), "author".to_string()],
        vec!["name".to_string()],
    );
    parent.fields.push(fsel("Review", "author", vec![leaf("name")]));
    let mut sub = GroupForSubField::new(parent);
    let t = sub.group_for_field(&md, &user, &fdef("name")).unwrap();
    assert_eq!(t, GroupTarget::Parent);
    let groups = sub.into_groups();
    assert_eq!(groups[0].dependent_groups_by_service.len(), 0);
}

// an extension field whose requirements live at a third service routes
// through a chain: first the entity at its base service, then the extension.
#[test]
fn requires_chain() {
    let md = FederationMetadata {
        owners: vec![
            owner("Product", "upc", "products"),
            owner("Product", "price", "inventory"),
            owner("Product", "weight", "inventory"),
            owner("Product", "shippingCost", "shipping"),
        ],
        bases: vec![base("Product", "inventory")],
        value_types: vec![],
        keys: vec![
            key("Product", "products", vec![fsel("Product", "upc", vec![])]),
            key("Product", "inventory", vec![fsel("Product", "upc", vec![])]),
        ],
        requires: vec![requires_entry(
            "Product",
            "shippingCost",
            "shipping",
            vec![
                fsel("Product", "upc", vec![]),
                fsel("Product", "price", vec![]),
                fsel("Product", "weight", vec![]),
            ],
        )],
    };
    let product = object("Product", &[], &["upc", "price", "weight", "shippingCost"]);
    let mut parent = FetchGroup::init("products".to_string());
    parent.merge_at.push("products".to_string());
    parent.merge_at.push("@".to_string());
    let mut sub = GroupForSubField::new(parent);
    let t = sub.group_for_field(&md, &product, &fdef("shippingCost")).unwrap();
    assert_eq!(t, GroupTarget::Chained(0, 0));
    sub.push_field(t, fsel("Product", "shippingCost", vec![]));

    let mut groups = sub.into_groups();
    let root = groups.remove(0);
    // the parent fetches the key for the base-service round trip
    assert_eq!(field_names(&root.fields), vec!["upc".to_string()]);
    assert_eq!(root.dependent_groups_by_service.len(), 1);
    let inv = &root.dependent_groups_by_service[0];
    assert_eq!(inv.service, "inventory");
    assert_eq!(field_names(&inv.group.required_fields), vec!["upc".to_string()]);
    // the base group fetches what the extension requires
    assert_eq!(
        field_names(&inv.group.fields),
        vec!["upc".to_string(), "price".to_string(), "weight".to_string()]
    );
    assert_eq!(inv.group.dependent_groups_by_service.len(), 1);
    let ship = &inv.group.dependent_groups_by_service[0];
    assert_eq!(ship.service, "shipping");
    assert_eq!(
        field_names(&ship.group.required_fields),
        vec!["upc".to_string(), "price".to_string(), "weight".to_string()]
    );
    assert_eq!(field_names(&ship.group.fields), vec!["shippingCost".to_string()]);
    // the chained groups splice at the same path as their parent
    assert_eq!(inv.group.merge_at, root.merge_at);
    assert_eq!(ship.group.merge_at, root.merge_at);
}

// serial mutation fields coalesce only when adjacent fields share a
// service, and group order follows field order.
#[test]
fn serial_mutation_coalescing() {
    let md = FederationMetadata {
        owners: vec![
            owner("Mutation", "a", "svc1"),
            owner("Mutation", "b", "svc1"),
            owner("Mutation", "c", "svc2"),
        ],
        bases: vec![],
        value_types: vec![],
        keys: vec![],
        requires: vec![],
    };
    let mutation = object("Mutation", &[], &["a", "b", "c"]);
    let mut sel = SerialGroupForField::new();
    let ia = sel.group_for_field(&md, &mutation, &fdef("a")).unwrap();
    sel.push_field(ia, fsel("Mutation", "a", vec![]));
    let ib = sel.group_for_field(&md, &mutation, &fdef("b")).unwrap();
    sel.push_field(ib, fsel("Mutation", "b", vec![]));
    let ic = sel.group_for_field(&md, &mutation, &fdef("c")).unwrap();
    sel.push_field(ic, fsel("Mutation", "c", vec![]));
    assert_eq!((ia, ib, ic), (0, 0, 1));
    let groups = sel.into_groups();
    assert_eq!(groups.len(), 2);
    assert_eq!(groups[0].service_name, "svc1");
    assert_eq!(field_names(&groups[0].fields), vec!["a".to_string(), "b".to_string()]);
    assert_eq!(groups[1].service_name, "svc2");
    assert_eq!(field_names(&groups[1].fields), vec!["c".to_string()]);
}

// sibling fields with one response key merge into a single selection.
#[test]
fn sibling_merge() {
    let fields = vec![fsel(
        "Query",
        "me",
        vec![field("friends", vec![leaf("id")]), field("friends", vec![leaf("name")])],
    )];
    let merged = merge_selection_sets(fields);
    assert_eq!(merged.len(), 1);
    match &merged[0] {
        Selection::Field(f) => {
            assert_eq!(f.name, "friends");
            let sub: Vec<String> = f.selection_set.iter().map(sel_name).collect();
            assert_eq!(sub, vec!["id".to_string(), "name".to_string()]);
        }
        _ => panic!("expected a field"),
    }
}

// The merger is idempotent: a second pass changes nothing.
#[test]
fn merge_idempotent_on_example() {
    let sels = vec![
        field("a", vec![leaf("x")]),
        aliased("alias1", "a"),
        field("a", vec![leaf("y"), leaf("x")]),
        Selection::FragmentSpread("frag".to_string()),
        leaf("b"),
    ];
    let once = merge_field_selection_sets(sels);
    let names: Vec<String> = once.iter().map(sel_name).collect();
    assert_eq!(
        names,
        vec!["a".to_string(), "b".to_string(), "a".to_string(), "frag".to_string()]
    );
    match &once[0] {
        Selection::Field(f) => {
            let sub: Vec<String> = f.selection_set.iter().map(sel_name).collect();
            assert_eq!(sub, vec!["x".to_string(), "y".to_string()]);
        }
        _ => panic!("expected a field"),
    }
    let twice = merge_field_selection_sets(once.clone_for_test());
    assert_eq!(render(&twice), render(&once));
}

// Duplicate leaf fields collapse to the first occurrence.
#[test]
fn merge_drops_duplicate_leaves() {
    let merged = merge_field_selection_sets(vec![leaf("id"), leaf("id")]);
    assert_eq!(merged.len(), 1);
    assert_eq!(sel_name(&merged[0]), "id");
}

// Aliased fields never merge.
#[test]
fn merge_keeps_aliased_apart() {
    let merged = merge_field_selection_sets(vec![aliased("x", "a"), aliased("y", "a")]);
    assert_eq!(merged.len(), 2);
}

fn render(sels: &[Selection]) -> String {
    let mut out = String::new();
    for s in sels {
        match s {
            Selection::Field(f) => {
                if let Some(a) = &f.alias {
                    out.push_str(a);
                    out.push(':');
                }
                out.push_str(&f.name);
                out.push('{');
                out.push_str(&render(&f.selection_set));
                out.push('}');
            }
            Selection::FragmentSpread(n) => {
                out.push_str("...");
                out.push_str(n);
            }
            Selection::InlineFragment(i) => {
                out.push_str("...on:");
                out.push_str(&render(&i.selection_set));
            }
        }
        out.push(' ');
    }
    out
}

trait CloneForTest {
    fn clone_for_test(&self) -> Self;
}

impl CloneForTest for Vec<Selection> {
    fn clone_for_test(&self) -> Self {
        self.iter().map(|s| s.duplicate()).collect()
    }
}

impl CloneForTest for Vec<FieldSel> {
    fn clone_for_test(&self) -> Self {
        self.iter().map(|s| s.duplicate()).collect()
    }
}

// Ordering stability on concrete values: the same construction twice gives
// byte-identical renderings.
#[test]
fn ordering_stability() {
    let build = || {
        let md = FederationMetadata {
            owners: vec![
                owner("User", "name", "accounts"),
                owner("User", "reviews", "reviews"),
            ],
            bases: vec![base("User", "accounts")],
            value_types: vec![],
            keys: vec![key("User", "accounts", vec![fsel("User", "id", vec![])])],
            requires: vec![requires_entry("User", "reviews", "reviews", vec![fsel("User", "id", vec![])])],
        };
        let user = object("User", &[], &["name", "reviews"]);
        let mut sub = GroupForSubField::new(FetchGroup::init("accounts".to_string()));
        let t = sub.group_for_field(&md, &user, &fdef("reviews")).unwrap();
        sub.push_field(t, fsel("User", "reviews", vec![leaf("body")]));
        let mut groups = sub.into_groups();
        let g = groups.remove(0);
        let mut out = g.service_name.clone();
        for d in &g.dependent_groups_by_service {
            out.push(' ');
            out.push_str(&d.service);
            out.push_str(&render(
                &merge_selection_sets(d.group.fields.clone_for_test()),
            ));
        }
        out.push_str(&render(&merge_selection_sets(g.fields.clone_for_test())));
        out
    };
    assert_eq!(build(), build());
}

// Value-type transparency: a field on a value type never leaves its parent
// group.
#[test]
fn value_type_stays_put() {
    let mut md = empty_md();
    md.value_types.push("Money".to_string());
    let money = object("Money", &[], &["amount", "currency"]);
    let mut sub = GroupForSubField::new(FetchGroup::init("bank".to_string()));
    let t = sub.group_for_field(&md, &money, &fdef("amount")).unwrap();
    assert_eq!(t, GroupTarget::Parent);
    assert_eq!(sub.into_groups()[0].dependent_groups_by_service.len(), 0);
}

// `__typename` never triggers a fetch of its own.
#[test]
fn typename_stays_put() {
    let md = empty_md();
    let user = object("User", &[], &[]);
    let mut sub = GroupForSubField::new(FetchGroup::init("accounts".to_string()));
    let t = sub.group_for_field(&md, &user, &fdef("__typename")).unwrap();
    assert_eq!(t, GroupTarget::Parent);
}

// An unknown owner is a composition error.
#[test]
fn unknown_owner_is_composition_error() {
    let md = empty_md();
    let query = object("Query", &[], &["me"]);
    let mut sel = ParallelGroupForField::new();
    assert_eq!(sel.group_for_field(&md, &query, &fdef("me")), Err(PlanError::Composition));
    let mut ser = SerialGroupForField::new();
    assert_eq!(ser.group_for_field(&md, &query, &fdef("me")), Err(PlanError::Composition));
    let mut sub = GroupForSubField::new(FetchGroup::init("accounts".to_string()));
    assert_eq!(sub.group_for_field(&md, &query, &fdef("me")), Err(PlanError::Composition));
}

// Key fields fall back to a bare `__typename` selection when no key applies.
#[test]
fn key_fields_typename_fallback() {
    let md = empty_md();
    let user = object("User", &[], &[]);
    let k = md.key_fields(&user, &"accounts".to_string());
    assert_eq!(k.len(), 1);
    assert_eq!(k[0].def_name, "__typename");
}

// Parallel groups are keyed by service and keep insertion order.
#[test]
fn parallel_groups_by_service() {
    let md = FederationMetadata {
        owners: vec![
            owner("Query", "a", "s1"),
            owner("Query", "b", "s2"),
            owner("Query", "c", "s1"),
        ],
        bases: vec![],
        value_types: vec![],
        keys: vec![],
        requires: vec![],
    };
    let query = object("Query", &[], &["a", "b", "c"]);
    let mut sel = ParallelGroupForField::new();
    let ia = sel.group_for_field(&md, &query, &fdef("a")).unwrap();
    let ib = sel.group_for_field(&md, &query, &fdef("b")).unwrap();
    let ic = sel.group_for_field(&md, &query, &fdef("c")).unwrap();
    assert_eq!((ia, ib, ic), (0, 1, 0));
    let groups = sel.into_groups();
    assert_eq!(groups.len(), 2);
    assert_eq!(groups[0].service_name, "s1");
    assert_eq!(groups[1].service_name, "s2");
}

#[test]
fn operations_of_document() {
    let doc = Document {
        definitions: vec![
            Definition::Operation(OperationDef {
                kind: Operation::Mutation,
                variable_definitions: vec![VariableDef {
                    name: "v".to_string(),
                    var_type: "Int".to_string(),
                }],
                selection_set: vec![leaf("a")],
            }),
            Definition::SelectionSet(vec![leaf("b")]),
        ],
    };
    let ops: Vec<Op> = get_operations(&doc);
    assert_eq!(ops.len(), 2);
    assert_eq!(ops[0].kind, Operation::Mutation);
    assert_eq!(ops[1].kind, Operation::Query);
    assert_eq!(sel_name(&ops[1].selection_set[0]), "b");

    let vars = variable_name_to_def(&doc);
    assert_eq!(vars.len(), 1);
    assert_eq!(vars[0].name, "v");
    assert_eq!(vars[0].var_type, "Int");
}

#[test]
fn types_table_and_lookup() {
    let schema = SchemaDocument {
        definitions: vec![
            SchemaDefinition::Type(object("User", &[], &["id"])),
            SchemaDefinition::Other,
            SchemaDefinition::Type(TypeDefinition::Scalar("DateTime".to_string())),
        ],
    };
    let types = names_to_types(&schema);
    assert_eq!(types.len(), 2);
    assert!(type_by_name(&types, &"User".to_string()).is_some());
    assert!(type_by_name(&types, &"DateTime".to_string()).is_some());
    assert!(type_by_name(&types, &"Missing".to_string()).is_none());
}

#[test]
fn possible_types_unions_and_interfaces() {
    let schema = SchemaDocument {
        definitions: vec![
            SchemaDefinition::Type(interface("Node", &[])),
            SchemaDefinition::Type(interface("Entity", &["Node"])),
            SchemaDefinition::Type(object("User", &["Entity"], &["id"])),
            SchemaDefinition::Type(TypeDefinition::Union(UnionType {
                name: "Actor".to_string(),
                types: vec!["User".to_string(), "Bot".to_string()],
            })),
        ],
    };
    let types = names_to_types(&schema);
    let poss = build_possible_types(&schema, &types).unwrap();
    let find = |n: &str| poss.iter().find(|e| e.name == n).map(|e| e.objects.clone());
    assert_eq!(find("User"), Some(vec!["User".to_string()]));
    // the object stands under every transitively implemented interface
    assert_eq!(find("Entity"), Some(vec!["User".to_string()]));
    assert_eq!(find("Node"), Some(vec!["User".to_string()]));
    assert_eq!(find("Actor"), Some(vec!["User".to_string(), "Bot".to_string()]));
}

#[test]
fn possible_types_visits_each_interface_once() {
    let schema = SchemaDocument {
        definitions: vec![
            SchemaDefinition::Type(interface("A", &["B"])),
            SchemaDefinition::Type(interface("B", &["A"])),
            SchemaDefinition::Type(object("User", &["A"], &[])),
        ],
    };
    let types = names_to_types(&schema);
    let poss = build_possible_types(&schema, &types).unwrap();
    let find = |n: &str| poss.iter().find(|e| e.name == n).map(|e| e.objects.clone());
    // even through the implementation cycle, the object stands once under
    // each interface
    assert_eq!(find("A"), Some(vec!["User".to_string()]));
    assert_eq!(find("B"), Some(vec!["User".to_string()]));
}

#[test]
fn possible_types_unknown_membership_is_composition_error() {
    let schema = SchemaDocument {
        definitions: vec![SchemaDefinition::Type(object("User", &["Missing"], &[]))],
    };
    let types = names_to_types(&schema);
    assert!(matches!(build_possible_types(&schema, &types), Err(PlanError::Composition)));
}

#[test]
fn introspection_predicates() {
    assert!(is_introspection_type(&"__Schema".to_string()));
    assert!(is_introspection_type(&"__TypeKind".to_string()));
    assert!(!is_introspection_type(&"User".to_string()));
    assert!(!is_not_introspection_field(&leaf("__schema")));
    assert!(!is_not_introspection_field(&leaf("__type")));
    assert!(is_not_introspection_field(&leaf("me")));
    assert!(is_not_introspection_field(&Selection::FragmentSpread("f".to_string())));
}

#[test]
fn head_splits_vector() {
    let v: Vec<u64> = vec![7, 8, 9];
    let (h, t) = v.head();
    assert_eq!(h, 7);
    assert_eq!(t, vec![8, 9]);
}

#[test]
fn group_by_first_occurrence_order() {
    let grouped = group_by(vec![leaf("a"), leaf("b"), leaf("a")]);
    assert_eq!(grouped.len(), 2);
    assert_eq!(grouped[0].0, "a");
    assert_eq!(grouped[0].1.len(), 2);
    assert_eq!(grouped[1].0, "b");
    assert_eq!(grouped[1].1.len(), 1);
}

// Key sufficiency and path coherence on concrete values: a dependent
// group's requirements are among the parent's fields, and its merge path
// extends the parent's.
#[test]
fn dependent_group_invariants() {
    let mut parent = FetchGroup::init("accounts".to_string());
    parent.merge_at.push("me".to_string());
    let idx = parent.dependent_group_for_service(
        &"reviews".to_string(),
        vec![fsel("User", "id", vec![])],
    );
    assert_eq!(idx, 0);
    let dep = &parent.dependent_groups_by_service[0];
    assert_eq!(dep.group.merge_at, parent.merge_at);
    for r in &dep.group.required_fields {
        assert!(parent.fields.iter().any(|f| f.def_name == r.def_name));
    }
    // reuse extends rather than duplicates the group
    let idx2 = parent.dependent_group_for_service(&"reviews".to_string(), vec![]);
    assert_eq!(idx2, 0);
    assert_eq!(parent.dependent_groups_by_service.len(), 1);
}

// A cross-service field on a type with no key at the parent's service falls
// back to the owning service's keys.
#[test]
fn typename_only_key_falls_back_to_owning_keys() {
    let md = FederationMetadata {
        owners: vec![owner("User", "name", "accounts")],
        bases: vec![base("User", "accounts")],
        value_types: vec![],
        keys: vec![key("User", "accounts", vec![fsel("User", "id", vec![])])],
        requires: vec![],
    };
    let user = object("User", &[], &["name"]);
    let mut sub = GroupForSubField::new(FetchGroup::init("reviews".to_string()));
    let t = sub.group_for_field(&md, &user, &fdef("name")).unwrap();
    assert_eq!(t, GroupTarget::Dependent(0));
    let groups = sub.into_groups();
    let dep = &groups[0].dependent_groups_by_service[0];
    assert_eq!(dep.service, "accounts");
    // not the bare __typename fallback: the owning service's key was used
    assert_eq!(field_names(&dep.group.required_fields), vec!["id".to_string()]);
}

// Result order after merging: plain fields first in first-occurrence order,
// then aliased fields, then fragments, inline fragments included.
#[test]
fn merge_result_order() {
    let inline = Selection::InlineFragment(query_planner::ast::InlineFragment {
        type_condition: Some("User".to_string()),
        selection_set: vec![leaf("id")],
    });
    let sels = vec![
        Selection::FragmentSpread("f".to_string()),
        aliased("al", "b"),
        leaf("a"),
        inline,
        leaf("c"),
    ];
    let merged = merge_field_selection_sets(sels);
    let names: Vec<String> = merged.iter().map(sel_name).collect();
    assert_eq!(
        names,
        vec![
            "a".to_string(),
            "c".to_string(),
            "b".to_string(),
            "f".to_string(),
            "...".to_string()
        ]
    );
}

// The metadata answers are the first matching table entries.
#[test]
fn metadata_lookups() {
    let md = FederationMetadata {
        owners: vec![owner("User", "id", "accounts"), owner("User", "id", "shadow")],
        bases: vec![base("User", "accounts")],
        value_types: vec!["Money".to_string()],
        keys: vec![],
        requires: vec![],
    };
    let user = object("User", &[], &["id"]);
    let money = object("Money", &[], &[]);
    assert_eq!(
        md.owning_service(
            match &user {
                TypeDefinition::Object(o) => o,
                _ => unreachable!(),
            },
            &fdef("id")
        ),
        Ok("accounts".to_string())
    );
    assert!(md.is_value_type(&money));
    assert!(!md.is_value_type(&user));
    assert_eq!(md.required_fields(&user, &fdef("id"), &"accounts".to_string()).len(), 0);
}

// End to end at the root: one parallel group per owning service, with
// introspection selections left out of fetch-group construction.
#[test]
fn split_root_query() {
    let md = FederationMetadata {
        owners: vec![owner("Query", "me", "accounts"), owner("Query", "top", "products")],
        bases: vec![],
        value_types: vec![],
        keys: vec![],
        requires: vec![],
    };
    let query = object("Query", &[], &["me", "top"]);
    let op = Op {
        kind: Operation::Query,
        selection_set: vec![leaf("__schema"), field("me", vec![leaf("id")]), leaf("top")],
    };
    let groups = split_root_fields(&md, &query, &op).unwrap();
    assert_eq!(groups.len(), 2);
    assert_eq!(groups[0].service_name, "accounts");
    assert_eq!(field_names(&groups[0].fields), vec!["me".to_string()]);
    assert_eq!(groups[1].service_name, "products");
    assert_eq!(field_names(&groups[1].fields), vec!["top".to_string()]);
}

// End to end for mutations: adjacent same-service fields coalesce, in order.
#[test]
fn split_root_mutation() {
    let md = FederationMetadata {
        owners: vec![
            owner("Mutation", "a", "svc1"),
            owner("Mutation", "b", "svc1"),
            owner("Mutation", "c", "svc2"),
        ],
        bases: vec![],
        value_types: vec![],
        keys: vec![],
        requires: vec![],
    };
    let mutation = object("Mutation", &[], &["a", "b", "c"]);
    let op = Op {
        kind: Operation::Mutation,
        selection_set: vec![leaf("a"), leaf("b"), leaf("c")],
    };
    let groups = split_root_fields(&md, &mutation, &op).unwrap();
    assert_eq!(groups.len(), 2);
    assert_eq!(field_names(&groups[0].fields), vec!["a".to_string(), "b".to_string()]);
    assert_eq!(field_names(&groups[1].fields), vec!["c".to_string()]);
}

// A root selection that is no plain field is reported as unsupported, not
// planned wrongly.
#[test]
fn split_root_rejects_fragments() {
    let md = empty_md();
    let query = object("Query", &[], &[]);
    let op = Op {
        kind: Operation::Query,
        selection_set: vec![Selection::FragmentSpread("f".to_string())],
    };
    assert!(matches!(split_root_fields(&md, &query, &op), Err(PlanError::Unsupported)));
}

// Groups with nothing to fetch are pruned at emission; the rest keep order.
#[test]
fn prune_drops_empty_groups() {
    let mut a = FetchGroup::init("a".to_string());
    a.fields.push(fsel("Query", "x", vec![]));
    let b = FetchGroup::init("b".to_string());
    let mut c = FetchGroup::init("c".to_string());
    c.fields.push(fsel("Query", "y", vec![]));
    let pruned = prune_empty_groups(vec![a, b, c]);
    let names: Vec<String> = pruned.iter().map(|g| g.service_name.clone()).collect();
    assert_eq!(names, vec!["a".to_string(), "c".to_string()]);
}
