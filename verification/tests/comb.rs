use lib::{Combine, Combined};

#[test]
fn combine_emits_once_every_input_has_a_value() {
    let mut c: Combine<u32> = Combine::new(2);
    assert_eq!(c.step(0, Some(1)), Combined::Nothing);
    assert_eq!(c.step(0, Some(2)), Combined::Nothing);
    assert_eq!(c.step(1, Some(10)), Combined::Emit(vec![2, 10]));
    assert_eq!(c.step(0, Some(3)), Combined::Emit(vec![3, 10]));
}

#[test]
fn combine_ends_when_last_input_ends() {
    let mut c: Combine<u32> = Combine::new(3);
    assert_eq!(c.step(2, Some(7)), Combined::Nothing);
    assert_eq!(c.step(0, None), Combined::Nothing);
    assert_eq!(c.step(1, None), Combined::Nothing);
    assert_eq!(c.step(2, None), Combined::End);
    assert_eq!(c.step(2, None), Combined::Nothing);
}

#[test]
fn combine_keeps_values_of_ended_inputs() {
    let mut c: Combine<u32> = Combine::new(2);
    c.step(0, Some(1));
    c.step(0, None);
    assert_eq!(c.step(1, Some(5)), Combined::Emit(vec![1, 5]));
}
