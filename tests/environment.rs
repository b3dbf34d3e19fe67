use ready_set_boole::environment::Environment;

#[test]
fn enable_and_get() {
    let mut env = Environment::default();
    assert_eq!(env.get(b'A'), None);
    env.enable(b'C');
    assert_eq!(env.get(b'C'), Some(false));
    env.enable(b'C');
    assert_eq!(env.symbols(), vec![b'C']);
    let env = Environment::new(0b101, 0b100);
    assert_eq!(env.get(b'A'), Some(false));
    assert_eq!(env.get(b'B'), None);
    assert_eq!(env.get(b'C'), Some(true));
}

#[test]
fn symbols_and_values_line_up() {
    let mut env = Environment::new(0, 0b10_0000_0000_0000_0000_0000_0011);
    env.enable(b'Z');
    env.enable(b'A');
    env.enable(b'M');
    assert_eq!(env.symbols(), vec![b'A', b'M', b'Z']);
    assert_eq!(env.values(), vec![true, false, true]);
}

#[test]
fn values_ignore_unset_bits() {
    let env = Environment::new(0b10, 0b11);
    assert_eq!(env.values(), vec![true]);
    assert_eq!(env.symbols(), vec![b'B']);
}
