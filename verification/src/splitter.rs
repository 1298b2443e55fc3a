use vstd::prelude::*;
use crate::ast::{FieldSel, FieldSelModel, Sel, Selection, field_sels_model, sels_model, lemma_sels_model};
use crate::groups::{
    FetchGroup, GroupModel, ParallelGroupForField, SerialGroupForField, group_index, groups_model,
    par_apply, ser_apply, ser_index, with_field_group_at,
};
use crate::helpers::{Op, Operation, spec_not_introspection_field, is_not_introspection_field};
use crate::metadata::{FederationMetadata, MdModel, PlanError, find_owner};
use crate::schema::{FieldDef, TypeDefinition};

verus! {

// ---------------------------------------------------------------------------
// The root pass of selection splitting: each top-level field of the
// operation is routed to a fetch group by the parallel strategy for queries
// and subscriptions, and by the serial strategy for mutations.  Top-level
// introspection selections are excluded from fetch-group construction; a
// root selection that is not a plain field would need fragment expansion
// and is reported as unsupported.
// ---------------------------------------------------------------------------

/// The effect of routing the root selections in order, starting from the
/// groups `gs`.
pub open spec fn split_root_spec(
    md: MdModel,
    root: Seq<char>,
    sels: Seq<Sel>,
    gs: Seq<GroupModel>,
    serial: bool,
) -> Result<Seq<GroupModel>, PlanError>
    decreases sels.len(),
{
    if sels.len() == 0 {
        Result::Ok(gs)
    } else {
        match sels[0] {
            Sel::Field(f) => {
                if !spec_not_introspection_field(sels[0]) {
                    split_root_spec(md, root, sels.drop_first(), gs, serial)
                } else {
                    match find_owner(md.owners, root, f.name) {
                        Option::Some(svc) => {
                            let gs1 = if serial {
                                ser_apply(gs, svc)
                            } else {
                                par_apply(gs, svc)
                            };
                            let i = if serial {
                                ser_index(gs, svc)
                            } else {
                                group_index(gs, svc)
                            };
                            let gs2 = with_field_group_at(
                                gs1,
                                i,
                                FieldSelModel { parent_type: root, def_name: f.name, node: f },
                            );
                            split_root_spec(md, root, sels.drop_first(), gs2, serial)
                        },
                        Option::None => Result::Err(PlanError::Composition),
                    }
                }
            },
            _ => Result::Err(PlanError::Unsupported),
        }
    }
}

/// Splits an operation's root selection set into fetch groups: queries and
/// subscriptions fetch in parallel across services, mutations in series.
pub fn split_root_fields(md: &FederationMetadata, root_type: &TypeDefinition, op: &Op) -> (r: Result<
    Vec<FetchGroup>,
    PlanError,
>)
    requires
        root_type matches TypeDefinition::Object(_),
    ensures
        ({
            let serial = op.kind == Operation::Mutation;
            match split_root_spec(
                md.model(),
                root_type.spec_name(),
                sels_model(op.selection_set@),
                Seq::empty(),
                serial,
            ) {
                Result::Ok(gs) => r matches Result::Ok(v) && groups_model(v@) == gs,
                Result::Err(e) => r matches Result::Err(e2) && e2 == e,
            }
        }),
{
    match op.kind {
        Operation::Mutation => split_root_serial(md, root_type, op),
        _ => split_root_parallel(md, root_type, op),
    }
}

fn split_root_parallel(md: &FederationMetadata, root_type: &TypeDefinition, op: &Op) -> (r: Result<
    Vec<FetchGroup>,
    PlanError,
>)
    requires
        root_type matches TypeDefinition::Object(_),
        op.kind != Operation::Mutation,
    ensures
        ({
            match split_root_spec(
                md.model(),
                root_type.spec_name(),
                sels_model(op.selection_set@),
                Seq::empty(),
                false,
            ) {
                Result::Ok(gs) => r matches Result::Ok(v) && groups_model(v@) == gs,
                Result::Err(e) => r matches Result::Err(e2) && e2 == e,
            }
        }),
{
    let ghost md_m = md.model();
    let ghost root = root_type.spec_name();
    let ghost all = sels_model(op.selection_set@);
    let ghost goal = split_root_spec(md_m, root, all, Seq::empty(), false);
    let sels = &op.selection_set;
    let mut selector = ParallelGroupForField::new();
    proof {
        lemma_sels_model(sels@);
        assert(all.skip(0) =~= all);
        assert(groups_model(selector.groups@) =~= Seq::<GroupModel>::empty());
    }
    let mut i: usize = 0;
    while i < sels.len()
        invariant
            md_m == md.model(),
            root == root_type.spec_name(),
            root_type matches TypeDefinition::Object(_),
            all == sels_model(op.selection_set@),
            sels == &op.selection_set,
            all.len() == sels@.len(),
            forall|j: int| 0 <= j < sels@.len() ==> all[j] == (#[trigger] sels@[j]).model(),
            i <= sels@.len(),
            goal == split_root_spec(md_m, root, all, Seq::empty(), false),
            goal == split_root_spec(md_m, root, all.skip(i as int), groups_model(selector.groups@), false),
        decreases sels@.len() - i,
    {
        let ghost gs0 = groups_model(selector.groups@);
        proof {
            assert(all.skip(i as int)[0] == all[i as int]);
            assert(all.skip(i as int).drop_first() =~= all.skip(i as int + 1));
        }
        match &sels[i] {
            Selection::Field(f) => {
                if is_not_introspection_field(&sels[i]) {
                    let field_def = FieldDef { name: f.name.clone(), field_type: String::new() };
                    match selector.group_for_field(md, root_type, &field_def) {
                        Result::Ok(idx) => {
                            let node = f.duplicate();
                            let root_name = root_type.as_name().clone();
                            let sel_rec = FieldSel {
                                parent_type: root_name,
                                def_name: f.name.clone(),
                                node,
                            };
                            proof {
                                assert(sel_rec.model() =~~= (FieldSelModel {
                                    parent_type: root,
                                    def_name: f.name@,
                                    node: f.model(),
                                }));
                                crate::groups::lemma_groups_model(selector.groups@);
                            }
                            selector.push_field(idx, sel_rec);
                        },
                        Result::Err(e) => {
                            return Result::Err(e);
                        },
                    }
                }
            },
            _ => {
                return Result::Err(PlanError::Unsupported);
            },
        }
        i = i + 1;
    }
    proof {
        assert(all.skip(all.len() as int).len() == 0);
    }
    Result::Ok(selector.into_groups())
}

fn split_root_serial(md: &FederationMetadata, root_type: &TypeDefinition, op: &Op) -> (r: Result<
    Vec<FetchGroup>,
    PlanError,
>)
    requires
        root_type matches TypeDefinition::Object(_),
    ensures
        ({
            match split_root_spec(
                md.model(),
                root_type.spec_name(),
                sels_model(op.selection_set@),
                Seq::empty(),
                true,
            ) {
                Result::Ok(gs) => r matches Result::Ok(v) && groups_model(v@) == gs,
                Result::Err(e) => r matches Result::Err(e2) && e2 == e,
            }
        }),
{
    let ghost md_m = md.model();
    let ghost root = root_type.spec_name();
    let ghost all = sels_model(op.selection_set@);
    let ghost goal = split_root_spec(md_m, root, all, Seq::empty(), true);
    let sels = &op.selection_set;
    let mut selector = SerialGroupForField::new();
    proof {
        lemma_sels_model(sels@);
        assert(all.skip(0) =~= all);
        assert(groups_model(selector.groups@) =~= Seq::<GroupModel>::empty());
    }
    let mut i: usize = 0;
    while i < sels.len()
        invariant
            md_m == md.model(),
            root == root_type.spec_name(),
            root_type matches TypeDefinition::Object(_),
            all == sels_model(op.selection_set@),
            sels == &op.selection_set,
            all.len() == sels@.len(),
            forall|j: int| 0 <= j < sels@.len() ==> all[j] == (#[trigger] sels@[j]).model(),
            i <= sels@.len(),
            goal == split_root_spec(md_m, root, all, Seq::empty(), true),
            goal == split_root_spec(md_m, root, all.skip(i as int), groups_model(selector.groups@), true),
        decreases sels@.len() - i,
    {
        let ghost gs0 = groups_model(selector.groups@);
        proof {
            assert(all.skip(i as int)[0] == all[i as int]);
            assert(all.skip(i as int).drop_first() =~= all.skip(i as int + 1));
        }
        match &sels[i] {
            Selection::Field(f) => {
                if is_not_introspection_field(&sels[i]) {
                    let field_def = FieldDef { name: f.name.clone(), field_type: String::new() };
                    match selector.group_for_field(md, root_type, &field_def) {
                        Result::Ok(idx) => {
                            let node = f.duplicate();
                            let root_name = root_type.as_name().clone();
                            let sel_rec = FieldSel {
                                parent_type: root_name,
                                def_name: f.name.clone(),
                                node,
                            };
                            proof {
                                assert(sel_rec.model() =~~= (FieldSelModel {
                                    parent_type: root,
                                    def_name: f.name@,
                                    node: f.model(),
                                }));
                                crate::groups::lemma_groups_model(selector.groups@);
                            }
                            selector.push_field(idx, sel_rec);
                        },
                        Result::Err(e) => {
                            return Result::Err(e);
                        },
                    }
                }
            },
            _ => {
                return Result::Err(PlanError::Unsupported);
            },
        }
        i = i + 1;
    }
    proof {
        assert(all.skip(all.len() as int).len() == 0);
    }
    Result::Ok(selector.into_groups())
}

/// Groups whose recorded fields are empty at emission are pruned; the rest
/// keep their order.
pub open spec fn prune_spec(gs: Seq<GroupModel>) -> Seq<GroupModel>
    decreases gs,
{
    if gs.len() == 0 {
        Seq::empty()
    } else if gs[0].fields.len() == 0 {
        prune_spec(gs.drop_first())
    } else {
        seq![gs[0]] + prune_spec(gs.drop_first())
    }
}

/// Drops groups with nothing to fetch.
pub fn prune_empty_groups(groups: Vec<FetchGroup>) -> (r: Vec<FetchGroup>)
    ensures
        groups_model(r@) == prune_spec(groups_model(groups@)),
{
    let ghost gm = groups_model(groups@);
    let ghost goal = prune_spec(gm);
    let mut rest = groups;
    let mut out: Vec<FetchGroup> = Vec::new();
    proof {
        crate::groups::lemma_groups_model(rest@);
        assert(groups_model(out@) =~= Seq::<GroupModel>::empty());
        assert(goal =~= groups_model(out@) + prune_spec(groups_model(rest@)));
    }
    while rest.len() > 0
        invariant
            goal == groups_model(out@) + prune_spec(groups_model(rest@)),
        decreases rest@.len(),
    {
        let ghost rm = groups_model(rest@);
        let ghost om = groups_model(out@);
        proof {
            crate::groups::lemma_groups_model(rest@);
            crate::groups::lemma_groups_model(out@);
        }
        let g = rest.remove(0);
        proof {
            assert(groups_model(rest@) =~= rm.drop_first());
            assert(g.model() == rm[0]);
        }
        if g.fields.len() > 0 {
            proof {
                assert(g.model().fields.len() > 0) by {
                    assert(field_sels_model(g.fields@).len() == g.fields@.len());
                }
            }
            let ghost ov = out@;
            out.push(g);
            proof {
                crate::groups::lemma_groups_model(out@);
                assert(om.len() == ov.len());
                assert forall|k: int| 0 <= k < out@.len() implies groups_model(out@)[k] == om.push(rm[0])[k] by {
                    if k < ov.len() {
                        assert(out@[k] == ov[k]);
                        assert(groups_model(out@)[k] == out@[k].model());
                        assert(om[k] == ov[k].model());
                    } else {
                        assert(out@[k] == g);
                        assert(groups_model(out@)[k] == g.model());
                    }
                }
                assert(groups_model(out@) =~= om.push(rm[0]));
                assert(om.push(rm[0]) + prune_spec(rm.drop_first()) =~= om + prune_spec(rm));
            }
        } else {
            proof {
                assert(g.model().fields.len() == 0) by {
                    assert(field_sels_model(g.fields@).len() == g.fields@.len());
                }
            }
        }
    }
    proof {
        assert(groups_model(rest@).len() == 0);
        assert(prune_spec(groups_model(rest@)) =~= Seq::<GroupModel>::empty());
        assert(goal =~= groups_model(out@));
    }
    out
}

} // verus!
