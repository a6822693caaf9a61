use bean_context::error::{pretty_print, AppContextDroppedError, BeanError, BoxError};
use bean_context::metadata::BeanMetadata;
use std::error::Error;
use std::fmt;

#[derive(Debug, PartialEq)]
struct Mine(u8);

impl fmt::Display for Mine {
    fn fmt(&self, f: &mut fmt::Formatter<'_>) -> fmt::Result {
        f.write_str("mine")
    }
}

impl Error for Mine {}

fn meta(bean_type: &'static str, bean_name: &'static str) -> BeanMetadata {
    BeanMetadata { bean_type, bean_name }
}

#[test]
fn a_path_is_printed_with_arrows() {
    assert_eq!(pretty_print(&vec![]), "");
    assert_eq!(pretty_print(&vec![meta("A", "x")]), "x(A)");
    assert_eq!(pretty_print(&vec![meta("A", "x"), meta("B", "y"), meta("A", "x")]), "x(A) -> y(B) -> x(A)");
}

#[test]
fn every_error_says_what_is_wrong() {
    let e: BeanError = BeanError::NotInitialized(meta("A", "x"));
    assert_eq!(
        e.message(),
        "bean with type A and name x is not initialized with `construct_bean` method"
    );
    let e: BeanError = BeanError::HasAsync(meta("A", "x"));
    assert_eq!(
        e.message(),
        "bean with type A and name x is async and cannot be initialized with `build_non_async` method"
    );
    let e: BeanError = BeanError::CyclicDependency(vec![meta("A", "x"), meta("B", "y")]);
    assert_eq!(e.message(), "cyclic dependencies detected: x(A) -> y(B)");
    let e: BeanError = BeanError::Custom(meta("A", "x"), BoxError::new(Mine(4), Mine(4).to_string()));
    assert_eq!(e.message(), "custom error of bean A with type x: mine");
    assert_eq!(
        AppContextDroppedError.message(),
        "application context is dropped, all related beans are dropped too"
    );
}

#[test]
fn the_internal_error_comes_back_as_its_type() {
    let e: BeanError = BeanError::Custom(meta("A", "x"), BoxError::new(Mine(7), Mine(7).to_string()));
    assert_eq!(e.into_internal_err::<Mine>(), Some(Mine(7)));
    let e: BeanError = BeanError::Custom(meta("A", "x"), BoxError::new(fmt::Error, fmt::Error.to_string()));
    assert_eq!(e.into_internal_err::<Mine>(), None);
    let e: BeanError = BeanError::NotInitialized(meta("A", "x"));
    assert_eq!(e.into_internal_err::<Mine>(), None);
    let e: BeanError = BeanError::HasAsync(meta("A", "x"));
    assert_eq!(e.into_internal_err::<Mine>(), None);
    let e: BeanError = BeanError::CyclicDependency(vec![]);
    assert_eq!(e.into_internal_err::<Mine>(), None);
}
