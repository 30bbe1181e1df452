use toql_mysql::acyclic::check_acyclic;
use toql_mysql::error::{single_entity, ToqlError};
use toql_mysql::load_loop::{next_pending, MergeLoop};
use toql_mysql::mapping::{walk_path, Registry, Relation, RelationKind, TypeMapping};
use toql_mysql::merge::MergeIndex;
use toql_mysql::page::{count_limit, page_counts, select_limit, select_modifier, wants_counts, Page, PageCounts};
use toql_mysql::registration::{delete_action, deleted_rows, DeleteAction, RegisteredRoots};

fn s(x: &str) -> String {
    x.to_string()
}

fn rel(field: &str, target: usize, kind: RelationKind) -> Relation {
    Relation { field: s(field), target, kind }
}

fn ty(name: &str, relations: Vec<Relation>) -> TypeMapping {
    TypeMapping { name: s(name), relations }
}

fn shop() -> Registry {
    Registry {
        types: vec![
            ty("User", vec![rel("address", 1, RelationKind::Join), rel("children", 2, RelationKind::Merge)]),
            ty("Address", vec![rel("country", 3, RelationKind::Join)]),
            ty("Child", vec![rel("toys", 4, RelationKind::Merge), rel("pet", 3, RelationKind::Join)]),
            ty("Country", vec![]),
            ty("Toy", vec![]),
        ],
    }
}

#[test]
fn single_entity_cardinality() {
    assert_eq!(single_entity::<u32>(vec![]), Err(ToqlError::NotFound));
    assert_eq!(single_entity(vec![7u32]), Ok(7));
    assert_eq!(single_entity(vec![7u32, 8]), Err(ToqlError::NotUnique));
}

#[test]
fn no_page_means_no_limit_and_no_counts() {
    assert_eq!(select_limit(None), None);
    assert!(!wants_counts(None));
    assert_eq!(page_counts(None, 10, 5), None);
    assert_eq!(select_modifier(None), "");
}

#[test]
fn uncounted_page_limits_without_counts() {
    let p = Some(Page::Uncounted(20, 10));
    assert_eq!(select_limit(p), Some((20, 10)));
    assert_eq!(page_counts(p, 10, 5), None);
    assert_eq!(select_modifier(p), "");
}

#[test]
fn counted_page_limits_and_counts() {
    let p = Some(Page::Counted(0, 2));
    assert_eq!(select_limit(p), Some((0, 2)));
    assert_eq!(select_modifier(p), "SQL_CALC_FOUND_ROWS");
    assert_eq!(page_counts(p, 9, 4), Some(PageCounts { unpaged_total: 9, filtered_total: 4 }));
}

#[test]
fn count_ignores_any_page() {
    assert_eq!(count_limit(None), None);
    assert_eq!(count_limit(Some(Page::Uncounted(0, 1))), None);
    assert_eq!(count_limit(Some(Page::Counted(3, 1))), None);
}

#[test]
fn merge_index_groups_rows_by_parent() {
    let index = MergeIndex::build(&vec![5, 7, 5, 9, 5]);
    assert_eq!(index.children(5), vec![0, 2, 4]);
    assert_eq!(index.children(9), vec![3]);
    assert_eq!(index.children(8), Vec::<usize>::new());
    assert_eq!(index.assign(&vec![7, 5, 1]), vec![vec![1], vec![0, 2, 4], vec![]]);
}

#[test]
fn merge_index_of_no_rows() {
    let index = MergeIndex::build(&vec![]);
    assert_eq!(index.assign(&vec![1, 2]), vec![Vec::<usize>::new(), vec![]]);
}

#[test]
fn walk_follows_relations() {
    let reg = shop();
    assert_eq!(walk_path(&reg, 0, &vec![]), Some(0));
    assert_eq!(walk_path(&reg, 0, &vec![s("children"), s("pet")]), Some(3));
    assert_eq!(walk_path(&reg, 0, &vec![s("children"), s("bike")]), None);
}

#[test]
fn merge_loop_without_pending_paths_runs_once() {
    let mut l = MergeLoop::new(vec![]);
    assert!(l.pending().is_empty());
    assert!(!l.finish_pass(&vec![]));
    assert!(l.pending().is_empty());
}

#[test]
fn merge_loop_goes_deeper_until_nothing_is_pending() {
    let mut l = MergeLoop::new(vec![s("children"), s("orders")]);
    assert_eq!(l.pending().len(), 2);
    let more = l.finish_pass(&vec![vec![s("children_toys")], vec![s("orders_items"), s("children_toys")]]);
    assert!(more);
    assert_eq!(l.pending(), &vec![s("children_toys"), s("orders_items")]);
    assert!(!l.finish_pass(&vec![vec![], vec![]]));
}

#[test]
fn next_pending_is_a_union_without_duplicates() {
    let next = next_pending(&vec![vec![s("a"), s("b"), s("a")], vec![], vec![s("b"), s("c")]]);
    assert_eq!(next, vec![s("a"), s("b"), s("c")]);
}

#[test]
fn registration_happens_once() {
    let mut roots = RegisteredRoots::new();
    assert!(!roots.is_registered(&s("User")));
    assert!(roots.mark_registered(&s("User")));
    assert!(roots.is_registered(&s("User")));
    assert!(!roots.mark_registered(&s("User")));
    assert!(!roots.is_registered(&s("Toy")));
}

#[test]
fn delete_without_predicate_is_a_no_op() {
    let action = delete_action(true);
    assert_eq!(action, DeleteAction::Skip);
    assert_eq!(deleted_rows(action, 99), 0);
}

#[test]
fn delete_with_predicate_reports_affected_rows() {
    let action = delete_action(false);
    assert_eq!(action, DeleteAction::Execute);
    assert_eq!(deleted_rows(action, 3), 3);
}

#[test]
fn acyclic_mapping_is_accepted() {
    assert_eq!(check_acyclic(&shop()), Ok(()));
    assert_eq!(check_acyclic(&Registry { types: vec![] }), Ok(()));
}

#[test]
fn cyclic_mapping_is_refused() {
    let mut reg = shop();
    reg.types[4].relations.push(rel("owner", 2, RelationKind::Join));
    assert_eq!(check_acyclic(&reg), Err(ToqlError::MappingError));
}

#[test]
fn self_relation_is_refused() {
    let reg = Registry { types: vec![ty("Node", vec![rel("parent", 0, RelationKind::Join)])] };
    assert_eq!(check_acyclic(&reg), Err(ToqlError::MappingError));
}

#[test]
fn register_accepts_an_acyclic_mapping_once() {
    let mut roots = RegisteredRoots::new();
    assert_eq!(roots.register(&shop(), &s("User")), Ok(true));
    assert_eq!(roots.register(&shop(), &s("User")), Ok(false));
    assert!(roots.is_registered(&s("User")));
}

#[test]
fn register_refuses_a_cyclic_mapping() {
    let mut roots = RegisteredRoots::new();
    let reg = Registry { types: vec![ty("A", vec![rel("b", 1, RelationKind::Merge)]), ty("B", vec![rel("a", 0, RelationKind::Join)])] };
    assert_eq!(roots.register(&reg, &s("A")), Err(ToqlError::MappingError));
    assert!(!roots.is_registered(&s("A")));
}

#[test]
fn register_refuses_a_relation_to_an_unknown_type() {
    let mut roots = RegisteredRoots::new();
    let reg = Registry { types: vec![ty("A", vec![rel("b", 5, RelationKind::Join)])] };
    assert!(!reg.check_wf());
    assert_eq!(roots.register(&reg, &s("A")), Err(ToqlError::MappingError));
}
