use rpn_actors::conversions::{
    options_to_iterator, result_string_to_option_i32, whatever, whatever2, whatever3,
};
use rpn_actors::sequences::{
    first_five, Factorial, Fibonacci, PowersOfTwo, Sequence, TriangularNums,
};

#[test]
fn fibonacci_first_five() {
    let mut s = Fibonacci::new();
    assert_eq!(first_five(&mut s), (0, 1, 1, 2, 3));
    assert_eq!(s.n(), 5);
    s.reset();
    assert_eq!(s.n(), 0);
    assert_eq!(s.generate(), Some(0));
}

#[test]
fn factorial_first_five() {
    let mut s = Factorial::new();
    assert_eq!(first_five(&mut s), (1, 2, 6, 24, 120));
    assert_eq!(s.n(), 5);
    s.reset();
    assert_eq!(s.generate(), Some(1));
}

#[test]
fn powers_of_two_first_five() {
    let mut s = PowersOfTwo::new();
    assert_eq!(first_five(&mut s), (1, 2, 4, 8, 16));
    s.reset();
    assert_eq!(s.n(), 0);
}

#[test]
fn triangular_first_five() {
    let mut s = TriangularNums::new();
    assert_eq!(first_five(&mut s), (1, 3, 6, 10, 15));
    s.reset();
    assert_eq!(s.generate(), Some(1));
}

#[test]
fn string_results_to_i32() {
    let ok: Result<String, ()> = Ok("42".to_string());
    assert_eq!(result_string_to_option_i32(ok), Some(42));
    let neg: Result<String, ()> = Ok("-17".to_string());
    assert_eq!(result_string_to_option_i32(neg), Some(-17));
    let bad: Result<String, ()> = Ok("forty-two".to_string());
    assert_eq!(result_string_to_option_i32(bad), None);
    let too_big: Result<String, ()> = Ok("2147483648".to_string());
    assert_eq!(result_string_to_option_i32(too_big), None);
    let min: Result<String, ()> = Ok("-2147483648".to_string());
    assert_eq!(result_string_to_option_i32(min), Some(-2147483648));
    let err: Result<String, ()> = Err(());
    assert_eq!(result_string_to_option_i32(err), None);
}

#[test]
fn three_options_flatten_in_order() {
    assert_eq!(options_to_iterator(Some(1), None, Some(3)), vec![1, 3]);
    assert_eq!(options_to_iterator::<i32>(None, None, None), Vec::<i32>::new());
    assert_eq!(options_to_iterator(Some(7), Some(8), Some(9)), vec![7, 8, 9]);
}

#[test]
fn nested_option_results() {
    let v: Option<Result<Option<i32>, ()>> = Some(Ok(Some(5)));
    assert_eq!(whatever(v), Some(Ok(5)));
    let v: Option<Result<Option<i32>, ()>> = Some(Ok(None));
    assert_eq!(whatever(v), None);
    let v: Option<Result<Option<i32>, ()>> = Some(Err(()));
    assert_eq!(whatever(v), Some(Err(())));

    let v: Option<Result<Option<i32>, ()>> = Some(Ok(Some(5)));
    assert_eq!(whatever2(v), Ok(Some(5)));
    let v: Option<Result<Option<i32>, ()>> = Some(Err(()));
    assert_eq!(whatever2(v), Err(()));

    let v: Option<Result<Option<i32>, ()>> = Some(Ok(Some(5)));
    assert_eq!(whatever3(v), Some(5));
    let v: Option<Result<Option<i32>, ()>> = Some(Ok(None));
    assert_eq!(whatever3(v), None);
    let v: Option<Result<Option<i32>, ()>> = None;
    assert_eq!(whatever3(v), None);
    let v: Option<Result<Option<i32>, ()>> = Some(Err(()));
    assert_eq!(whatever3(v), None);
}
