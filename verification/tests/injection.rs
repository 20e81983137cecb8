use tinfoil::CoolDependency;
use tinfoil::Dependency;
use tinfoil::InjectionContext;
use tinfoil::MyCoolValue;
use tinfoil::MyOtherCoolValue;
use tinfoil::OtherDependency;
use tinfoil::PrematureReadError;
use tinfoil::Provider;
use tinfoil::Slot;
use tinfoil::UnknownTypeError;
use tinfoil::get_context;
use tinfoil::COOL_DEPENDENCY_ID;
use tinfoil::MY_COOL_VALUE_ID;

#[test]
fn it_works() {
    let context = get_context();

    let c: &CoolDependency = context.get();
    assert_eq!(&c.cool.0, "yo");
}

#[test]
fn parameter_value_is_reachable() {
    let context = get_context();
    let a: &MyCoolValue = context.get();
    assert_eq!(a.0, "yo");
}

#[test]
fn default_value_is_reachable() {
    let context = get_context();
    let d: &MyOtherCoolValue = context.get();
    assert_eq!(d.0, 32);
}

#[test]
fn every_computed_slot_is_resolvable() {
    let context = InjectionContext::new(MyCoolValue("yo".to_owned()));
    let b: &CoolDependency = context.get();
    assert_eq!(b.cool.0, "yo");
    let c: &OtherDependency = context.get();
    assert_eq!(c.cool_dep.cool.0, "yo");
    assert_eq!(c.cool_value.0, "yo");
}

#[test]
fn two_constructions_hold_equal_values() {
    let first = InjectionContext::new(MyCoolValue("twice".to_owned()));
    let second = InjectionContext::new(MyCoolValue("twice".to_owned()));
    let b1: &CoolDependency = first.get();
    let b2: &CoolDependency = second.get();
    assert_eq!(b1.cool.0, b2.cool.0);
    let c1: &OtherDependency = first.get();
    let c2: &OtherDependency = second.get();
    assert_eq!(c1.cool_dep.cool.0, c2.cool_dep.cool.0);
    assert_eq!(c1.cool_value.0, c2.cool_value.0);
    let d1: &MyOtherCoolValue = first.get();
    let d2: &MyOtherCoolValue = second.get();
    assert_eq!(d1.0, d2.0);
}

#[test]
fn declared_dependency_lists() {
    let cool = CoolDependency::dependencies();
    assert_eq!(cool, vec![MY_COOL_VALUE_ID]);
    let other = OtherDependency::dependencies();
    assert_eq!(other, vec![COOL_DEPENDENCY_ID, MY_COOL_VALUE_ID]);
}

#[test]
fn constructor_pulls_declared_dependencies() {
    let context = InjectionContext {
        other_dependency: Slot::Empty,
        cool_value: MyCoolValue("pull".to_owned()),
        other_cool_value: MyOtherCoolValue(32),
        cool_dependency: Slot::Empty,
    };
    let b = CoolDependency::instn(&context);
    assert_eq!(b.cool.0, "pull");
}

#[test]
fn premature_read_is_a_checked_failure() {
    let context = InjectionContext {
        other_dependency: Slot::Empty,
        cool_value: MyCoolValue("early".to_owned()),
        other_cool_value: MyOtherCoolValue(32),
        cool_dependency: Slot::Empty,
    };
    let b: Result<&CoolDependency, PrematureReadError> = context.try_get();
    assert!(matches!(b, Err(PrematureReadError)));
    let c: Result<&OtherDependency, PrematureReadError> = context.try_get();
    assert!(matches!(c, Err(PrematureReadError)));
    let a: Result<&MyCoolValue, PrematureReadError> = context.try_get();
    assert_eq!(a.unwrap().0, "early");
}

#[test]
fn fill_writes_the_dispatched_slot() {
    let mut context = InjectionContext {
        other_dependency: Slot::Empty,
        cool_value: MyCoolValue("filled".to_owned()),
        other_cool_value: MyOtherCoolValue(32),
        cool_dependency: Slot::Empty,
    };
    let outcome = context.fill(COOL_DEPENDENCY_ID);
    assert!(outcome.is_ok());
    let b: Result<&CoolDependency, PrematureReadError> = context.try_get();
    assert_eq!(b.unwrap().cool.0, "filled");
}

#[test]
fn unknown_identifier_is_reported() {
    let mut context = InjectionContext {
        other_dependency: Slot::Empty,
        cool_value: MyCoolValue("unknown".to_owned()),
        other_cool_value: MyOtherCoolValue(32),
        cool_dependency: Slot::Empty,
    };
    let outcome = context.fill(999);
    assert!(matches!(outcome, Err(UnknownTypeError)));
    let b: Result<&CoolDependency, PrematureReadError> = context.try_get();
    assert!(b.is_err());
}
