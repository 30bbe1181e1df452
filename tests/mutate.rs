use toql_mysql::error::ToqlError;
use toql_mysql::insert_plan::{insert_order, plan_insert_order, same_path, InsertStep, PlannedPath, Slot};
use toql_mysql::insert_run::{generated_ids, InsertRun, StepOutcome};
use toql_mysql::mapping::{Registry, Relation, RelationKind, TypeMapping};
use toql_mysql::update_plan::plan_update_order;
use toql_mysql::update_run::{update_order, UpdateStep};

fn s(x: &str) -> String {
    x.to_string()
}

fn p(xs: &[&str]) -> Vec<String> {
    xs.iter().map(|x| x.to_string()).collect()
}

fn rel(field: &str, target: usize, kind: RelationKind) -> Relation {
    Relation { field: s(field), target, kind }
}

fn ty(name: &str, relations: Vec<Relation>) -> TypeMapping {
    TypeMapping { name: s(name), relations }
}

fn shop() -> Registry {
    Registry {
        types: vec![
            ty("User", vec![rel("address", 1, RelationKind::Join), rel("children", 2, RelationKind::Merge)]),
            ty("Address", vec![rel("country", 3, RelationKind::Join)]),
            ty("Child", vec![rel("toys", 4, RelationKind::Merge), rel("pet", 3, RelationKind::Join)]),
            ty("Country", vec![]),
            ty("Toy", vec![]),
        ],
    }
}

fn slot_of(plan: &[PlannedPath], path: &[&str]) -> Option<Slot> {
    plan.iter().find(|e| e.path == p(path)).map(|e| e.slot)
}

fn position(plan: &[PlannedPath], steps: &[InsertStep], path: &[&str]) -> usize {
    let k = plan.iter().position(|e| e.path == p(path)).unwrap();
    steps.iter().position(|s| *s == InsertStep::Path(k)).unwrap()
}

#[test]
fn insert_plan_levels_and_merges() {
    let reg = shop();
    let plan = plan_insert_order(&reg, 0, &vec![p(&["address", "country"]), p(&["children", "pet"]), p(&["children"])]).unwrap();
    assert_eq!(plan.len(), 4);
    assert_eq!(slot_of(&plan, &["address"]), Some(Slot::Join(0)));
    assert_eq!(slot_of(&plan, &["address", "country"]), Some(Slot::Join(1)));
    assert_eq!(slot_of(&plan, &["children"]), Some(Slot::Merge));
    assert_eq!(slot_of(&plan, &["children", "pet"]), Some(Slot::Join(0)));
}

#[test]
fn insert_plan_refuses_unknown_relation() {
    let reg = shop();
    let r = plan_insert_order(&reg, 0, &vec![p(&["address"]), p(&["children", "bike"])]);
    assert!(matches!(r, Err(ToqlError::MappingError)));
}

#[test]
fn insert_plan_of_no_paths_is_empty() {
    let plan = plan_insert_order(&shop(), 0, &vec![]).unwrap();
    assert!(plan.is_empty());
    assert_eq!(insert_order(&plan), vec![InsertStep::Root]);
}

#[test]
fn insert_order_runs_deep_joins_first_and_merges_last() {
    let reg = shop();
    let plan = plan_insert_order(&reg, 0, &vec![p(&["children", "pet"]), p(&["address", "country"])]).unwrap();
    let steps = insert_order(&plan);
    assert_eq!(steps.len(), 5);
    assert_eq!(steps[0], InsertStep::Root);
    assert_eq!(position(&plan, &steps, &["address", "country"]), 1);
    assert!(position(&plan, &steps, &["address"]) < position(&plan, &steps, &["children"]));
    assert!(position(&plan, &steps, &["children", "pet"]) < position(&plan, &steps, &["children"]));
    assert_eq!(position(&plan, &steps, &["children"]), 4);
}

#[test]
fn root_then_embedded_then_collection() {
    let reg = shop();
    let plan = plan_insert_order(&reg, 0, &vec![p(&["children"]), p(&["address"])]).unwrap();
    let steps = insert_order(&plan);
    assert_eq!(steps[0], InsertStep::Root);
    assert_eq!(position(&plan, &steps, &["address"]), 1);
    assert_eq!(position(&plan, &steps, &["children"]), 2);
}

#[test]
fn generated_ids_form_a_block() {
    assert_eq!(generated_ids(10, 3), Some(vec![10, 11, 12]));
    assert_eq!(generated_ids(10, 0), Some(vec![]));
    assert_eq!(generated_ids(u64::MAX, 1), Some(vec![u64::MAX]));
    assert_eq!(generated_ids(u64::MAX, 2), None);
}

#[test]
fn insert_root_with_two_children() {
    let reg = shop();
    let plan = plan_insert_order(&reg, 0, &vec![p(&["children"])]).unwrap();
    let mut run = InsertRun::new(&plan);
    assert_eq!(run.next_step(), Some(InsertStep::Root));
    let ids = run.record(StepOutcome::Executed { affected_rows: 1, last_insert_id: 42 });
    assert_eq!(ids, Some(vec![42]));
    assert_eq!(run.next_step(), Some(InsertStep::Path(0)));
    let ids = run.record(StepOutcome::Executed { affected_rows: 2, last_insert_id: 0 });
    assert_eq!(ids, None);
    assert_eq!(run.next_step(), None);
    assert_eq!(run.result(), 0);
}

#[test]
fn insert_run_skips_empty_batches_and_returns_last_id() {
    let reg = shop();
    let plan = plan_insert_order(&reg, 0, &vec![p(&["address"]), p(&["children", "pet"])]).unwrap();
    let mut run = InsertRun::new(&plan);
    assert_eq!(run.record(StepOutcome::Executed { affected_rows: 2, last_insert_id: 7 }), Some(vec![7, 8]));
    assert_eq!(run.record(StepOutcome::Executed { affected_rows: 2, last_insert_id: 30 }), Some(vec![30, 31]));
    assert_eq!(run.record(StepOutcome::Empty), None);
    assert_eq!(run.result(), 30);
    assert_eq!(run.record(StepOutcome::Executed { affected_rows: 0, last_insert_id: 0 }), None);
    assert_eq!(run.next_step(), None);
    assert_eq!(run.result(), 0);
}

#[test]
fn insert_run_with_no_statement_returns_zero() {
    let plan = plan_insert_order(&shop(), 0, &vec![]).unwrap();
    let mut run = InsertRun::new(&plan);
    assert_eq!(run.record(StepOutcome::Empty), None);
    assert_eq!(run.next_step(), None);
    assert_eq!(run.result(), 0);
}

#[test]
fn same_path_compares_names() {
    assert!(same_path(&p(&["a", "b"]), &p(&["a", "b"])));
    assert!(!same_path(&p(&["a", "b"]), &p(&["a"])));
    assert!(!same_path(&p(&["a", "b"]), &p(&["a", "c"])));
}

#[test]
fn update_plan_groups_fields_and_merges() {
    let reg = shop();
    let fields = vec![
        p(&["name"]),
        p(&["address", "street"]),
        p(&["address", "zip"]),
        p(&["children"]),
        p(&["address", "street"]),
        p(&["children"]),
        p(&["children", "toys"]),
    ];
    let plan = plan_update_order(&reg, 0, &fields).unwrap();
    assert_eq!(plan.joins.len(), 2);
    assert_eq!(plan.joins[0].path, p(&[]));
    assert_eq!(plan.joins[0].fields, p(&["name"]));
    assert_eq!(plan.joins[1].path, p(&["address"]));
    assert_eq!(plan.joins[1].fields, p(&["street", "zip"]));
    assert_eq!(plan.merges, vec![p(&["children"]), p(&["children", "toys"])]);
}

#[test]
fn update_plan_refuses_bad_paths() {
    let reg = shop();
    assert!(matches!(plan_update_order(&reg, 0, &vec![vec![]]), Err(ToqlError::MappingError)));
    assert!(matches!(plan_update_order(&reg, 0, &vec![p(&["bike", "color"])]), Err(ToqlError::MappingError)));
}

#[test]
fn update_replaces_collections_after_join_updates() {
    let reg = shop();
    let plan = plan_update_order(&reg, 0, &vec![p(&["children"]), p(&["address", "street"]), p(&["name"])]).unwrap();
    assert_eq!(plan.joins[0].path, p(&["address"]));
    assert_eq!(plan.joins[1].path, p(&[]));
    assert_eq!(
        update_order(&plan),
        vec![
            UpdateStep::UpdateJoin(1),
            UpdateStep::UpdateJoin(0),
            UpdateStep::DeleteMerge(0),
            UpdateStep::RefreshKeys(0),
            UpdateStep::InsertMerge(0),
        ]
    );
}

#[test]
fn update_replaces_each_collection_in_turn() {
    let reg = shop();
    let plan = plan_update_order(&reg, 0, &vec![p(&["children", "toys"]), p(&["children"])]).unwrap();
    assert!(plan.joins.is_empty());
    assert_eq!(
        update_order(&plan),
        vec![
            UpdateStep::DeleteMerge(0),
            UpdateStep::RefreshKeys(0),
            UpdateStep::InsertMerge(0),
            UpdateStep::DeleteMerge(1),
            UpdateStep::RefreshKeys(1),
            UpdateStep::InsertMerge(1),
        ]
    );
}
