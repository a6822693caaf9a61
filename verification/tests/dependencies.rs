//! Which beans depend on which, and the initialization along the dependencies.
use bean_context::context::AppContextBuilder;
use bean_context::depend::{init_plan, DepTree};
use bean_context::error::{BeanError, BoxError};
use bean_context::initialize::init_recursive;
use bean_context::lifecycle::{BuildFromContext, CallLog};
use bean_context::metadata::{BeanMetadata, BeanPriority, BeanType};
use bean_context::wrapper::BeanStatus;
use std::error::Error;
use std::fmt;
use std::sync::{Arc, Mutex};

/// The beans that were initialized so far.
type Seen = Arc<Mutex<Vec<&'static str>>>;

/// What the beans of these tests would be built from.
struct Source;

/// What some beans of these tests fail with.
#[derive(Debug)]
struct No;

impl fmt::Display for No {
    fn fmt(&self, f: &mut fmt::Formatter<'_>) -> fmt::Result {
        f.write_str("no")
    }
}

impl Error for No {}

/// A bean of kind `K`, which tells what it depends on and whether it can be initialized.
/// It notes its name whenever that is tried.
struct Bean<const K: u32> {
    name: &'static str,
    seen: Seen,
}

const X_ON_Y_AND_Z: u32 = 1;
const ON_Z: u32 = 2;
const ON_NOTHING: u32 = 3;
const ON_W_TWICE: u32 = 4;
const ON_W_AND_R_TWICE: u32 = 5;
const ON_Y: u32 = 6;
const ON_B: u32 = 7;
const ON_D_AND_C: u32 = 8;
const ON_A: u32 = 9;
const FAILS: u32 = 10;
const FAILS_ON_Z: u32 = 11;

impl<const K: u32> BuildFromContext<Source, (&'static str, Seen), ()> for Bean<K> {
    fn build_from(_ctx: &Source, extras: (&'static str, Seen)) -> Result<Self, ()> {
        Ok(Bean { name: extras.0, seen: extras.1 })
    }

    fn init_self(&self) -> Result<(), BoxError> {
        self.seen.lock().unwrap().push(self.name);
        if K == FAILS || K == FAILS_ON_Z {
            return Err(BoxError::new(No, No.to_string()));
        }
        Ok(())
    }

    fn priority() -> BeanPriority {
        BeanPriority::DependsOn(match K {
            X_ON_Y_AND_Z => vec![meta("y"), meta("z")],
            ON_Z | FAILS_ON_Z => vec![meta("z")],
            ON_W_TWICE => vec![meta("w"), meta("w")],
            ON_W_AND_R_TWICE => vec![meta("w"), meta("r"), meta("r")],
            ON_Y => vec![meta("y")],
            ON_B => vec![meta("b")],
            ON_D_AND_C => vec![meta("d"), meta("c")],
            ON_A => vec![meta("a")],
            _ => vec![],
        })
    }
}

fn meta(bean_name: &'static str) -> BeanMetadata {
    BeanMetadata { bean_type: "A", bean_name }
}

fn with<const K: u32>(b: AppContextBuilder, name: &'static str, seen: &Seen) -> AppContextBuilder {
    let bean = Bean { name, seen: seen.clone() };
    b.construct_bean::<Source, (&'static str, Seen), (), Bean<K>>(BeanType::named("A"), name, Ok(bean)).unwrap()
}

fn beans(seen: &Seen) -> AppContextBuilder {
    let b = with::<X_ON_Y_AND_Z>(AppContextBuilder::new(), "x", seen);
    let b = with::<ON_Z>(b, "y", seen);
    with::<ON_NOTHING>(b, "z", seen)
}

fn nobody() -> Seen {
    Arc::new(Mutex::new(Vec::new()))
}

fn noted(seen: &Seen) -> Vec<&'static str> {
    seen.lock().unwrap().clone()
}

fn statuses(b: &AppContextBuilder) -> Vec<BeanStatus> {
    (0..b.inner().len()).map(|i| b.inner().at(i).status()).collect()
}

#[test]
fn the_tree_lists_the_dependencies() {
    let tree = beans(&nobody()).build_dep_tree(false);
    assert_eq!(tree.get(&meta("x")), Some(&vec![meta("y"), meta("z")]));
    assert_eq!(tree.get(&meta("y")), Some(&vec![meta("z")]));
    assert_eq!(tree.get(&meta("z")), None);
    assert_eq!(tree.get(&meta("w")), None);
}

#[test]
fn the_reverse_tree_is_the_tree_turned_round() {
    let tree = beans(&nobody()).build_dep_tree(true);
    assert_eq!(tree.get(&meta("x")), None);
    assert_eq!(tree.get(&meta("y")), Some(&vec![meta("x")]));
    assert_eq!(tree.get(&meta("z")), Some(&vec![meta("x"), meta("y")]));
}

#[test]
fn a_dependency_may_be_declared_twice_or_be_unknown() {
    let b = with::<ON_W_TWICE>(AppContextBuilder::new(), "x", &nobody());
    assert_eq!(b.build_dep_tree(false).get(&meta("x")), Some(&vec![meta("w"), meta("w")]));
    assert_eq!(b.build_dep_tree(true).get(&meta("w")), Some(&vec![meta("x"), meta("x")]));
}

#[test]
fn beans_that_are_not_in_the_tree_are_not_initialized() {
    let seen = nobody();
    let mut b = beans(&seen);
    let tree = b.build_dep_tree(false);
    assert!(init_plan(&tree, meta("z")).is_empty());
    assert!(init_recursive(b.inner_mut(), &tree, vec![meta("z")], &mut CallLog::new()).is_ok());
    assert!(noted(&seen).is_empty());
    assert_eq!(statuses(&b), vec![BeanStatus::PostConstruct; 3]);
}

#[test]
fn beans_with_nothing_behind_them_are_initialized_in_order() {
    let seen = nobody();
    let mut b = beans(&seen);
    let mut tree = DepTree::new();
    tree.push(meta("x"), meta("y"));
    tree.push(meta("x"), meta("z"));
    tree.push(meta("x"), meta("w"));
    tree.push(meta("x"), meta("y"));
    tree.or_insert(meta("y"));
    tree.or_insert(meta("z"));
    tree.or_insert(meta("x"));
    assert_eq!(tree.get(&meta("y")), Some(&vec![]));
    assert_eq!(init_plan(&tree, meta("x")), vec![meta("y"), meta("z"), meta("y")]);
    assert_eq!(init_plan(&tree, meta("z")), vec![meta("z")]);
    assert_eq!(init_plan(&tree, meta("w")), vec![]);
    let mut log = CallLog::new();
    assert!(init_recursive(b.inner_mut(), &tree, vec![meta("q"), meta("x")], &mut log).is_ok());
    assert_eq!(noted(&seen), vec!["y", "z", "y"]);
    assert_eq!(statuses(&b), vec![BeanStatus::PostConstruct, BeanStatus::Using, BeanStatus::Using]);
    assert!(init_recursive(b.inner_mut(), &tree, vec![meta("z")], &mut log).is_ok());
    assert_eq!(noted(&seen), vec!["y", "z", "y", "z"]);
}

#[test]
fn initialization_ends_with_the_first_failure() {
    let seen = nobody();
    let b = with::<ON_NOTHING>(with::<ON_NOTHING>(AppContextBuilder::new(), "x", &seen), "y", &seen);
    let mut b = with::<FAILS>(b, "z", &seen);
    let mut tree = DepTree::new();
    tree.push(meta("x"), meta("y"));
    tree.push(meta("x"), meta("z"));
    tree.push(meta("x"), meta("unknown"));
    tree.or_insert(meta("y"));
    tree.or_insert(meta("z"));
    tree.or_insert(meta("unknown"));
    match init_recursive(b.inner_mut(), &tree, vec![meta("x")], &mut CallLog::new()) {
        Err(BeanError::Custom(m, e)) => {
            assert_eq!(m, meta("z"));
            assert_eq!(e.message(), "no");
        }
        other => panic!("unexpected {:?}", other),
    }
    assert_eq!(noted(&seen), vec!["y", "z"]);
    assert_eq!(
        statuses(&b),
        vec![BeanStatus::PostConstruct, BeanStatus::Using, BeanStatus::PostConstruct]
    );
}

#[test]
fn each_bean_is_initialized_after_those_it_depends_on() {
    let seen = nobody();
    let ctx = beans(&seen).build_non_async(&mut CallLog::new()).unwrap();
    assert_eq!(noted(&seen), vec!["z", "y", "x"]);
    assert_eq!(ctx.inner().len(), 3);
    for i in 0..3 {
        assert_eq!(ctx.inner().at(i).status(), BeanStatus::Using);
    }
    let x = ctx.acquire_bean(BeanType::<Bean<X_ON_Y_AND_Z>>::named("A"), "x");
    assert_eq!(x.acquire(ctx.inner().at(0).handle()).deref().name, "x");

    // beans that depend on nothing go in the order of registration, what is not
    // registered is not waited for, and a dependency may be declared twice
    let seen = nobody();
    let b = with::<ON_W_AND_R_TWICE>(AppContextBuilder::new(), "q", &seen);
    let b = with::<ON_NOTHING>(with::<ON_NOTHING>(b, "r", &seen), "s", &seen);
    assert!(b.build_non_async(&mut CallLog::new()).is_ok());
    assert_eq!(noted(&seen), vec!["r", "q", "s"]);
}

#[test]
fn a_context_is_not_built_where_a_bean_fails() {
    let seen = nobody();
    let b = with::<ON_Y>(AppContextBuilder::new(), "x", &seen);
    let b = with::<ON_NOTHING>(with::<FAILS_ON_Z>(b, "y", &seen), "z", &seen);
    match b.build_non_async(&mut CallLog::new()) {
        Err(BeanError::Custom(m, e)) => {
            assert_eq!(m, meta("y"));
            assert_eq!(e.message(), "no");
        }
        _ => panic!("built"),
    }
    assert_eq!(noted(&seen), vec!["z", "y"]);
}

#[test]
fn dependencies_that_lead_round_in_a_circle_are_found() {
    let seen = nobody();
    let b = with::<ON_B>(AppContextBuilder::new(), "a", &seen);
    let b = with::<ON_D_AND_C>(b, "b", &seen);
    let b = with::<ON_NOTHING>(with::<ON_B>(b, "c", &seen), "d", &seen);
    match b.inner().order_by_dependencies() {
        Err(path) => assert_eq!(path, vec![meta("b"), meta("c"), meta("b")]),
        Ok(_) => panic!("ordered"),
    }
    match b.build_non_async(&mut CallLog::new()) {
        Err(BeanError::CyclicDependency(path)) => assert_eq!(path, vec![meta("b"), meta("c"), meta("b")]),
        _ => panic!("built"),
    }

    let b = with::<ON_A>(AppContextBuilder::new(), "a", &seen);
    match b.build_non_async(&mut CallLog::new()) {
        Err(e) => assert_eq!(e.message(), "cyclic dependencies detected: a(A) -> a(A)"),
        _ => panic!("built"),
    }
    assert!(noted(&seen).is_empty());

    let ordered = beans(&seen).inner().order_by_dependencies();
    assert_eq!(ordered, Ok(vec![meta("z"), meta("y"), meta("x")]));
}
