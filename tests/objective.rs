use rapid_solve::base_value::BaseValue;
use rapid_solve::coefficient::Coefficient;
use rapid_solve::duration::Duration;
use rapid_solve::objective::{Indicator, LinearCombination, Objective};
use rapid_solve::objective_value::ObjectiveValue;
use std::cmp::Ordering;

#[derive(Clone)]
struct TestSolution {
    field1: i32,
    field2: i32,
    field3: i64,
    field4: i64,
    field5: Duration,
    field6: Duration,
}

struct FirstIndicator;

impl Indicator<TestSolution> for FirstIndicator {
    fn value(&self, solution: TestSolution) -> BaseValue {
        BaseValue::Integer(solution.field1 as i64)
    }

    fn evaluate(&self, solution: &TestSolution) -> BaseValue {
        self.value(solution.clone())
    }

    fn name(&self) -> String {
        "Field1".to_string()
    }
}

struct SecondIndicator;

impl Indicator<TestSolution> for SecondIndicator {
    fn value(&self, solution: TestSolution) -> BaseValue {
        BaseValue::Integer(solution.field2 as i64)
    }

    fn evaluate(&self, solution: &TestSolution) -> BaseValue {
        self.value(solution.clone())
    }

    fn name(&self) -> String {
        "Field2".to_string()
    }
}

struct ThirdIndicator;

impl Indicator<TestSolution> for ThirdIndicator {
    fn value(&self, solution: TestSolution) -> BaseValue {
        BaseValue::Float(solution.field3)
    }

    fn evaluate(&self, solution: &TestSolution) -> BaseValue {
        self.value(solution.clone())
    }

    fn name(&self) -> String {
        "Field3".to_string()
    }
}

struct FourthIndicator;

impl Indicator<TestSolution> for FourthIndicator {
    fn value(&self, solution: TestSolution) -> BaseValue {
        BaseValue::Float(solution.field4)
    }

    fn evaluate(&self, solution: &TestSolution) -> BaseValue {
        self.value(solution.clone())
    }

    fn name(&self) -> String {
        "Field4".to_string()
    }
}

struct FifthIndicator;

impl Indicator<TestSolution> for FifthIndicator {
    fn value(&self, solution: TestSolution) -> BaseValue {
        BaseValue::Duration(solution.field5)
    }

    fn evaluate(&self, solution: &TestSolution) -> BaseValue {
        self.value(solution.clone())
    }

    fn name(&self) -> String {
        "Field5".to_string()
    }
}

struct SixthIndicator;

impl Indicator<TestSolution> for SixthIndicator {
    fn value(&self, solution: TestSolution) -> BaseValue {
        BaseValue::Duration(solution.field6)
    }

    fn evaluate(&self, solution: &TestSolution) -> BaseValue {
        self.value(solution.clone())
    }

    fn name(&self) -> String {
        "Field6".to_string()
    }
}

fn boxed<I: Indicator<TestSolution> + 'static>(i: I) -> Box<dyn Indicator<TestSolution>> {
    Box::new(i)
}

fn build_objective() -> Objective<TestSolution> {
    let level1 = LinearCombination::new(vec![
        (Coefficient::Integer(1), boxed(FirstIndicator)),
        (Coefficient::Float(10_500_000), boxed(SecondIndicator)),
    ]);
    let level2 = LinearCombination::new(vec![
        (Coefficient::Integer(1), boxed(ThirdIndicator)),
        (Coefficient::Float(-1_500_000), boxed(FourthIndicator)),
    ]);
    let level3 = LinearCombination::new(vec![
        (Coefficient::Float(500_000), boxed(FifthIndicator)),
        (Coefficient::Integer(10), boxed(SixthIndicator)),
    ]);
    Objective::new(vec![level1, level2, level3])
}

#[test]
fn test() {
    let objective = build_objective();

    let solution1 = TestSolution {
        field1: 1,
        field2: 2,
        field3: 6_000_000,
        field4: 4_000_000,
        field5: Duration::from_seconds(10),
        field6: Duration::from_seconds(6),
    };

    let solution2 = TestSolution {
        field1: 2122,
        field2: -200,
        field3: 150_001_500,
        field4: 100_001_000,
        field5: Duration::from_iso("PT20H2M10S"),
        field6: Duration::from_iso("P1DT5H1M6S"),
    };

    let objective_value1 = ObjectiveValue::new(vec![
        BaseValue::Integer(22),
        BaseValue::Float(0),
        BaseValue::Duration(Duration::from_seconds(65)),
    ]);
    let objective_value2 = ObjectiveValue::new(vec![
        BaseValue::Integer(22),
        BaseValue::Zero,
        BaseValue::Duration(Duration::from_iso("P12DT12H12M5S")),
    ]);
    let objective_value3 =
        ObjectiveValue::new(vec![BaseValue::Maximum, BaseValue::Zero, BaseValue::Zero]);
    let objective_value4 = ObjectiveValue::new(vec![
        BaseValue::Integer(22),
        BaseValue::Float(0),
        BaseValue::Zero,
    ]);
    let objective_value_diff = ObjectiveValue::new(vec![
        BaseValue::Zero,
        BaseValue::Zero,
        BaseValue::Duration(Duration::from_iso("P12DT12H11M0S")),
    ]);
    let objective_value_sum = ObjectiveValue::new(vec![
        BaseValue::Integer(44),
        BaseValue::Float(0),
        BaseValue::Duration(Duration::from_iso("P12DT12H13M10S")),
    ]);
    let zero = ObjectiveValue::new(vec![BaseValue::Zero, BaseValue::Zero, BaseValue::Zero]);

    let evaluated_solution1 = objective.evaluate(solution1);
    let evaluated_solution2 = objective.evaluate(solution2);

    assert_eq!(evaluated_solution1.objective_value(), &objective_value1);
    assert_eq!(evaluated_solution2.objective_value(), &objective_value2);
    assert!(evaluated_solution1.is_better_than(&evaluated_solution2));
    assert!(evaluated_solution1.objective_value().lt(&objective_value3));
    assert_eq!(
        evaluated_solution2.objective_value().compare(&objective_value4),
        Ordering::Greater
    );
    assert_eq!(evaluated_solution1.objective_value().sub(&objective_value1), zero);
    assert_eq!(evaluated_solution2.objective_value().sub(&objective_value2), zero);
    assert_eq!(
        evaluated_solution2
            .objective_value()
            .sub(evaluated_solution1.objective_value()),
        objective_value_diff
    );
    assert_eq!(
        evaluated_solution2
            .objective_value()
            .add(evaluated_solution1.objective_value()),
        objective_value_sum
    );
}

#[test]
fn evaluation_is_deterministic() {
    let objective = build_objective();
    let solution = TestSolution {
        field1: 3,
        field2: 4,
        field3: 1_000_000,
        field4: 2_000_000,
        field5: Duration::from_seconds(7),
        field6: Duration::from_seconds(8),
    };
    let first = objective.evaluate(solution.clone());
    let second = objective.evaluate(solution);
    assert_eq!(first.objective_value(), second.objective_value());
    assert_eq!(
        first.objective_value().as_vec(),
        &vec![
            BaseValue::Integer(45),
            BaseValue::Float(-2_000_000),
            BaseValue::Duration(Duration::from_seconds(83)),
        ]
    );
}

#[test]
fn zero_and_maximum_of_an_objective() {
    let objective = build_objective();
    assert_eq!(objective.zero().as_vec().len(), 3);
    assert!(objective.zero().as_vec().iter().all(|v| matches!(v, BaseValue::Zero)));
    assert!(objective.maximum().as_vec().iter().all(|v| matches!(v, BaseValue::Maximum)));
    let v = ObjectiveValue::new(vec![BaseValue::Maximum, BaseValue::Integer(3), BaseValue::Maximum]);
    assert_eq!(objective.maximum().compare(&v), Ordering::Greater);
    assert_eq!(objective.maximum().compare(&objective.maximum()), Ordering::Equal);
}

#[test]
fn order_of_values_is_total_and_tolerant() {
    let a = ObjectiveValue::new(vec![BaseValue::Integer(1), BaseValue::Float(1_000_000)]);
    let b = ObjectiveValue::new(vec![BaseValue::Integer(1), BaseValue::Float(1_000_050)]);
    let c = ObjectiveValue::new(vec![BaseValue::Integer(1), BaseValue::Float(1_000_200)]);
    assert_eq!(a.compare(&b), Ordering::Equal);
    assert_eq!(a.compare(&c), Ordering::Less);
    assert_eq!(c.compare(&a), Ordering::Greater);
    assert!(a.lt(&c) && !c.lt(&a) && a != c);
    assert_eq!(BaseValue::Zero.try_cmp(&BaseValue::Integer(-2)), Some(Ordering::Greater));
    assert_eq!(
        BaseValue::Integer(1).try_cmp(&BaseValue::Duration(Duration::from_seconds(1))),
        None
    );
    assert_eq!(BaseValue::Maximum.cmp(&BaseValue::Integer(i64::MAX)), Ordering::Greater);
}

#[test]
fn zero_is_neutral_and_difference_with_itself_is_zero() {
    let x = ObjectiveValue::new(vec![BaseValue::Integer(-7), BaseValue::Float(2_500_000), BaseValue::Zero]);
    let zero = ObjectiveValue::repeat(BaseValue::Zero, 3);
    assert_eq!(zero.add(&x).as_vec(), x.as_vec());
    assert_eq!(x.sub(&x), zero);
    assert_eq!(BaseValue::Zero.sub(BaseValue::Integer(5)), BaseValue::Integer(-5));
    assert_eq!(BaseValue::Maximum.add(BaseValue::Integer(5)), BaseValue::Maximum);
    assert_eq!(BaseValue::Integer(5).checked_add(BaseValue::Float(1)), None);
    assert_eq!(BaseValue::Integer(i64::MAX).checked_add(BaseValue::Integer(1)), None);
    assert_eq!(
        BaseValue::sum(&vec![BaseValue::Integer(2), BaseValue::Zero, BaseValue::Integer(3)]),
        BaseValue::Integer(5)
    );
}

#[test]
fn coefficient_products() {
    assert_eq!(Coefficient::Integer(3).mul(BaseValue::Integer(-4)), BaseValue::Integer(-12));
    assert_eq!(Coefficient::Float(1_500_000).mul(BaseValue::Integer(-3)), BaseValue::Integer(-4));
    assert_eq!(Coefficient::Float(250_000).mul(BaseValue::Float(2_000_000)), BaseValue::Float(500_000));
    assert_eq!(
        Coefficient::Float(500_000).mul(BaseValue::Duration(Duration::from_seconds(11))),
        BaseValue::Duration(Duration::from_seconds(5))
    );
    assert_eq!(
        Coefficient::Integer(2).mul(BaseValue::Duration(Duration::Infinity)),
        BaseValue::Duration(Duration::Infinity)
    );
    assert!(Coefficient::Integer(1).is_one());
    assert!(Coefficient::Float(1_000_000).is_one());
    assert!(!Coefficient::Float(999_999).is_one());
    assert_eq!(Coefficient::from(4), Coefficient::Integer(4));
    let v = ObjectiveValue::new(vec![BaseValue::Integer(10), BaseValue::Float(3_000_000)]);
    assert_eq!(
        v.mul(Coefficient::Float(900_000)).as_vec(),
        &vec![BaseValue::Integer(9), BaseValue::Float(2_700_000)]
    );
}

#[test]
fn unwrapping_values() {
    assert_eq!(BaseValue::Integer(4).unwrap_integer(), 4);
    assert_eq!(BaseValue::Float(4).unwrap_float(), 4);
    assert_eq!(
        BaseValue::Duration(Duration::from_seconds(4)).unwrap_duration(),
        Duration::from_seconds(4)
    );
}
